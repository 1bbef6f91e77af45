//! Walks and connected components.
//!
//! Two vertices lie in one component of a relation between vertices if a
//! walk leads from one to the other, each step of which the relation
//! holds. The components of one colour of an edge list are those of the
//! relation "an edge of the colour joins the two".

use crate::edge_sums::{between, lemma_between_symmetric, lemma_edge_has_record, BiedgedEdge, EdgeColor};
use vstd::prelude::*;

verus! {

/// `path` is a walk each step of which `step` holds of.
pub open spec fn is_walk(step: spec_fn(u64, u64) -> bool, path: Seq<u64>) -> bool {
    &&& path.len() > 0
    &&& forall|i: int| 0 <= i < path.len() - 1 ==> step(#[trigger] path[i], path[i + 1])
}

/// A walk along `step` leads from `a` to `b`.
pub open spec fn reachable(step: spec_fn(u64, u64) -> bool, a: u64, b: u64) -> bool {
    exists|path: Seq<u64>| #[trigger] is_walk(step, path) && path.first() == a && path.last() == b
}

/// `step` holds of two vertices whichever is named first.
pub open spec fn symmetric(step: spec_fn(u64, u64) -> bool) -> bool {
    forall|x: u64, y: u64| #[trigger] step(x, y) ==> step(y, x)
}

pub proof fn lemma_reachable_refl(step: spec_fn(u64, u64) -> bool, a: u64)
    ensures
        reachable(step, a, a),
{
    let path = seq![a];
    assert(is_walk(step, path));
    assert(path.first() == a && path.last() == a);
}

pub proof fn lemma_reachable_step(step: spec_fn(u64, u64) -> bool, a: u64, b: u64)
    requires
        step(a, b),
    ensures
        reachable(step, a, b),
{
    let path = seq![a, b];
    assert(is_walk(step, path));
    assert(path.first() == a && path.last() == b);
}

pub proof fn lemma_reachable_sym(step: spec_fn(u64, u64) -> bool, a: u64, b: u64)
    requires
        symmetric(step),
        reachable(step, a, b),
    ensures
        reachable(step, b, a),
{
    let path = choose|path: Seq<u64>|
        #[trigger] is_walk(step, path) && path.first() == a && path.last() == b;
    let back = Seq::new(path.len(), |i: int| path[path.len() - 1 - i]);
    assert forall|i: int| 0 <= i < back.len() - 1 implies step(#[trigger] back[i], back[i + 1]) by {
        let j = path.len() - 2 - i;
        assert(step(path[j], path[j + 1]));
    }
    assert(is_walk(step, back));
    assert(back.first() == b && back.last() == a);
}

pub proof fn lemma_reachable_trans(step: spec_fn(u64, u64) -> bool, a: u64, b: u64, c: u64)
    requires
        reachable(step, a, b),
        reachable(step, b, c),
    ensures
        reachable(step, a, c),
{
    let first = choose|path: Seq<u64>|
        #[trigger] is_walk(step, path) && path.first() == a && path.last() == b;
    let second = choose|path: Seq<u64>|
        #[trigger] is_walk(step, path) && path.first() == b && path.last() == c;
    let path = first + second.drop_first();
    assert forall|i: int| 0 <= i < path.len() - 1 implies step(#[trigger] path[i], path[i + 1]) by {
        if i < first.len() - 1 {
            assert(step(first[i], first[i + 1]));
        } else {
            let j = i - first.len() + 1;
            assert(step(second[j], second[j + 1]));
            assert(path[i + 1] == second[j + 1]);
            if i == first.len() - 1 {
                assert(path[i] == first.last());
            } else {
                assert(path[i] == second[j]);
            }
        }
    }
    assert(is_walk(step, path));
    assert(path.first() == a);
    if second.len() == 1 {
        assert(path =~= first);
    }
    assert(path.last() == c);
}

/// A walk to another vertex ends with a step.
pub proof fn lemma_reachable_last_step(step: spec_fn(u64, u64) -> bool, a: u64, b: u64) -> (y: u64)
    requires
        reachable(step, a, b),
        a != b,
    ensures
        step(y, b),
{
    let path = choose|path: Seq<u64>|
        #[trigger] is_walk(step, path) && path.first() == a && path.last() == b;
    assert(path.len() >= 2);
    assert(step(path[path.len() - 2], path[path.len() - 2 + 1]));
    path[path.len() - 2]
}

proof fn lemma_walk_one_image(
    step: spec_fn(u64, u64) -> bool,
    p: spec_fn(u64) -> u64,
    path: Seq<u64>,
    i: int,
)
    requires
        forall|x: u64, y: u64| #[trigger] step(x, y) ==> p(x) == p(y),
        is_walk(step, path),
        0 <= i < path.len(),
    ensures
        p(path[i]) == p(path[0]),
    decreases i,
{
    if i > 0 {
        lemma_walk_one_image(step, p, path, i - 1);
        assert(step(path[i - 1], path[i - 1 + 1]));
    }
}

/// A map that gives both ends of every step the same image gives all of a
/// component one image.
pub proof fn lemma_reachable_one_image(
    step: spec_fn(u64, u64) -> bool,
    p: spec_fn(u64) -> u64,
    a: u64,
    b: u64,
)
    requires
        forall|x: u64, y: u64| #[trigger] step(x, y) ==> p(x) == p(y),
        reachable(step, a, b),
    ensures
        p(a) == p(b),
{
    let path = choose|path: Seq<u64>|
        #[trigger] is_walk(step, path) && path.first() == a && path.last() == b;
    lemma_walk_one_image(step, p, path, path.len() - 1);
}

/// Two relations that hold of the same pairs have the same components.
pub proof fn lemma_reachable_alike(
    first: spec_fn(u64, u64) -> bool,
    second: spec_fn(u64, u64) -> bool,
    a: u64,
    b: u64,
)
    requires
        forall|x: u64, y: u64| #[trigger] first(x, y) == #[trigger] second(x, y),
    ensures
        reachable(first, a, b) == reachable(second, a, b),
{
    if reachable(first, a, b) {
        let path = choose|path: Seq<u64>|
            #[trigger] is_walk(first, path) && path.first() == a && path.last() == b;
        assert forall|i: int| 0 <= i < path.len() - 1 implies second(
            #[trigger] path[i],
            path[i + 1],
        ) by {
            assert(first(path[i], path[i + 1]));
        }
        assert(is_walk(second, path));
    }
    if reachable(second, a, b) {
        let path = choose|path: Seq<u64>|
            #[trigger] is_walk(second, path) && path.first() == a && path.last() == b;
        assert forall|i: int| 0 <= i < path.len() - 1 implies first(
            #[trigger] path[i],
            path[i + 1],
        ) by {
            assert(second(path[i], path[i + 1]));
        }
        assert(is_walk(first, path));
    }
}

/// An edge of the colour joins `a` and `b`.
pub open spec fn adjacent(edges: Seq<BiedgedEdge>, a: u64, b: u64, color: EdgeColor) -> bool {
    between(edges, a, b, color) > 0
}

/// The relation "an edge of the colour joins the two".
pub open spec fn joined_by(edges: Seq<BiedgedEdge>, color: EdgeColor) -> spec_fn(u64, u64) -> bool {
    |a: u64, b: u64| adjacent(edges, a, b, color)
}

/// `a` and `b` lie in one connected component of the edges of the colour.
pub open spec fn connected(edges: Seq<BiedgedEdge>, a: u64, b: u64, color: EdgeColor) -> bool {
    reachable(joined_by(edges, color), a, b)
}

pub proof fn lemma_joined_by_symmetric(edges: Seq<BiedgedEdge>, color: EdgeColor)
    ensures
        symmetric(joined_by(edges, color)),
{
    let step = joined_by(edges, color);
    assert forall|x: u64, y: u64| #[trigger] step(x, y) implies step(y, x) by {
        lemma_between_symmetric(edges, x, y, color);
    }
}

pub proof fn lemma_connected_refl(edges: Seq<BiedgedEdge>, a: u64, color: EdgeColor)
    ensures
        connected(edges, a, a, color),
{
    lemma_reachable_refl(joined_by(edges, color), a);
}

pub proof fn lemma_connected_edge(edges: Seq<BiedgedEdge>, a: u64, b: u64, color: EdgeColor)
    requires
        adjacent(edges, a, b, color),
    ensures
        connected(edges, a, b, color),
{
    lemma_reachable_step(joined_by(edges, color), a, b);
}

pub proof fn lemma_connected_sym(edges: Seq<BiedgedEdge>, a: u64, b: u64, color: EdgeColor)
    requires
        connected(edges, a, b, color),
    ensures
        connected(edges, b, a, color),
{
    lemma_joined_by_symmetric(edges, color);
    lemma_reachable_sym(joined_by(edges, color), a, b);
}

pub proof fn lemma_connected_trans(edges: Seq<BiedgedEdge>, a: u64, b: u64, c: u64, color: EdgeColor)
    requires
        connected(edges, a, b, color),
        connected(edges, b, c, color),
    ensures
        connected(edges, a, c, color),
{
    lemma_reachable_trans(joined_by(edges, color), a, b, c);
}

/// A vertex that is connected with another is an end of an edge.
pub proof fn lemma_connected_last_edge(
    edges: Seq<BiedgedEdge>,
    a: u64,
    b: u64,
    color: EdgeColor,
) -> (y: u64)
    requires
        connected(edges, a, b, color),
        a != b,
    ensures
        between(edges, b, y, color) > 0,
{
    let y = lemma_reachable_last_step(joined_by(edges, color), a, b);
    lemma_between_symmetric(edges, y, b, color);
    y
}

/// A map that gives both endpoints of every edge of the colour the same
/// image gives all of a connected component one image.
pub proof fn lemma_connected_one_image(
    edges: Seq<BiedgedEdge>,
    p: spec_fn(u64) -> u64,
    a: u64,
    b: u64,
    color: EdgeColor,
)
    requires
        forall|k: int|
            0 <= k < edges.len() && (#[trigger] edges[k]).weight.count(color) > 0 ==> p(
                edges[k].from,
            ) == p(edges[k].to),
        connected(edges, a, b, color),
    ensures
        p(a) == p(b),
{
    let step = joined_by(edges, color);
    assert forall|x: u64, y: u64| #[trigger] step(x, y) implies p(x) == p(y) by {
        let k = lemma_edge_has_record(edges, x, y, color);
    }
    lemma_reachable_one_image(step, p, a, b);
}

/// Two edge lists with the same edges between every two vertices have the
/// same connected components.
pub proof fn lemma_connected_alike(
    first: Seq<BiedgedEdge>,
    second: Seq<BiedgedEdge>,
    a: u64,
    b: u64,
    color: EdgeColor,
)
    requires
        forall|x: u64, y: u64|
            #[trigger] between(first, x, y, color) == between(second, x, y, color),
    ensures
        connected(first, a, b, color) == connected(second, a, b, color),
{
    let one = joined_by(first, color);
    let other = joined_by(second, color);
    assert forall|x: u64, y: u64| #[trigger] one(x, y) == #[trigger] other(x, y) by {
        assert(between(first, x, y, color) == between(second, x, y, color));
    }
    lemma_reachable_alike(one, other, a, b);
}

} // verus!
