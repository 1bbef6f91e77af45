//! From a biedged graph to a cactus graph.
//!
//! Contracting every gray edge leaves one vertex for each connected
//! component of the gray edges, joined by the black edges of the sequence
//! nodes. Merging each 3-edge-connected component of that graph into one
//! vertex leaves a cactus graph.

use crate::biedgedgraph::{
    ascending, declared, input_edges, input_fault, merge_map, BiedgedGraph, GraphError,
};
use crate::connectivity::{
    connected, lemma_connected_alike, lemma_connected_edge, lemma_connected_last_edge,
    lemma_connected_one_image, lemma_connected_refl, lemma_connected_sym, lemma_connected_trans,
    lemma_reachable_last_step, lemma_reachable_one_image, lemma_reachable_refl,
    lemma_reachable_step, lemma_reachable_sym, lemma_reachable_trans, reachable, symmetric,
};
pub use crate::cycles::{find_cycles, find_cycles_};
use crate::cycles::{
    all_cycles, all_loops, around, bridges_outside, cycle_lists, edges_around, is_bridge_of,
    lemma_around_is_loop,
    is_loop, is_loop_edge, loop_lists, on_loop,
};
use crate::edge_sums::{
    between, between_images, lemma_between_le_total, lemma_between_symmetric,
    lemma_edge_has_record, lemma_image_has_record, lemma_images_after_merge, lemma_images_agree,
    lemma_images_of_fixed, lemma_record_in_image, same_pair, BiedgedEdge, EdgeColor,
};
use crate::fxmap::set_insert;
use crate::projection::{
    acyclic, find, find_map, find_projection, is_root, lemma_find_of_root, lemma_link, link,
    reaches_root,
};
use crate::tec::{
    all_below, find_components, first_seen, graph_from_edges, invert_components, lists, named,
    tec_names, vertex_count,
};
use rustc_hash::FxHashSet;
use std::collections::BTreeMap;
use vstd::prelude::*;

verus! {

/// `a` is at least as good a representative as `b`: a left endpoint before
/// a right one, and the smaller id of two endpoints of one side.
pub open spec fn prefers(a: u64, b: u64) -> bool {
    a % 2 < b % 2 || (a % 2 == b % 2 && a <= b)
}

/// The two endpoints of a gray edge, the one that stays first. The left
/// endpoint of a sequence node stays where the other is a right endpoint, so
/// that what stands for a gray component is named after a sequence node that
/// it opens; of two endpoints of one side the smaller stays.
pub fn survivor(a: u64, b: u64) -> (r: (u64, u64))
    ensures
        r == (if prefers(a, b) {
            (a, b)
        } else {
            (b, a)
        }),
        prefers(r.0, r.1),
{
    if a % 2 < b % 2 || (a % 2 == b % 2 && a <= b) {
        (a, b)
    } else {
        (b, a)
    }
}

/// The projection map speaks of this graph: no chain of entries runs in a
/// circle, and every vertex of the graph stands for itself.
pub open spec fn fits(p: Map<u64, u64>, graph: BiedgedGraph) -> bool {
    &&& acyclic(p)
    &&& forall|y: u64| graph.has_node(y) ==> is_root(p, y)
}

/// A map without entries fits every graph.
pub proof fn lemma_empty_map_fits(graph: BiedgedGraph)
    ensures
        fits(Map::<u64, u64>::empty(), graph),
{
    let p = Map::<u64, u64>::empty();
    assert forall|x: u64| reaches_root(p, x) by {
        lemma_find_of_root(p, x);
    }
}

/// What `find` does after `dropped` was merged into `kept`.
pub open spec fn moved(p: Map<u64, u64>, q: Map<u64, u64>, kept: u64, dropped: u64) -> bool {
    forall|x: u64|
        #[trigger] find(q, x) == (if find(p, x) == dropped {
            kept
        } else {
            find(p, x)
        })
}

/// The graph `g` with the map `p` came from the graph `g0` with the map `p0`
/// by merging vertices: the vertices of `g` are the representatives of the
/// vertices of `g0`, and the map says of every vertex what it said before,
/// read on.
#[verifier::opaque]
pub open spec fn represents(
    g0: BiedgedGraph,
    p0: Map<u64, u64>,
    g: BiedgedGraph,
    p: Map<u64, u64>,
) -> bool {
    &&& fits(p, g)
    &&& forall|x: u64| g0.has_node(x) ==> g.has_node(#[trigger] find(p, x))
    &&& forall|y: u64| g.has_node(y) ==> g0.has_node(y)
    &&& forall|x: u64| #[trigger] find(p, x) == find(p, find(p0, x))
    &&& forall|y: u64| is_root(p0, y) && !g0.has_node(y) ==> is_root(p, y)
}

/// Every vertex of `g0` has a representative that is preferred to it.
#[verifier::opaque]
pub open spec fn prefers_all(g0: BiedgedGraph, p: Map<u64, u64>) -> bool {
    forall|x: u64| g0.has_node(x) ==> prefers(#[trigger] find(p, x), x)
}

/// In one colour the graph is the quotient of the edge list `e0` by `find`:
/// between two vertices lie the edges of `e0` whose endpoints they stand
/// for. Without `loops` this is said of two different vertices only: edges
/// that were contracted would be loops.
#[verifier::opaque]
pub open spec fn is_quotient(
    graph: BiedgedGraph,
    e0: Seq<BiedgedEdge>,
    p: Map<u64, u64>,
    color: EdgeColor,
    loops: bool,
) -> bool {
    forall|x: u64, y: u64|
        (loops || x != y) ==> #[trigger] graph.count(x, y, color) == between_images(
            e0,
            find_map(p),
            x,
            y,
            color,
        )
}

/// A quotient with its loops is one without them.
proof fn lemma_quotient_without_loops(
    graph: BiedgedGraph,
    e0: Seq<BiedgedEdge>,
    p: Map<u64, u64>,
    color: EdgeColor,
)
    requires
        is_quotient(graph, e0, p, color, true),
    ensures
        is_quotient(graph, e0, p, color, false),
{
    reveal(is_quotient);
}

/// In one colour the graph has at no vertex more loops than the quotient
/// of the edge list `e0` by `find` has there.
#[verifier::opaque]
pub open spec fn loops_bounded(
    graph: BiedgedGraph,
    e0: Seq<BiedgedEdge>,
    p: Map<u64, u64>,
    color: EdgeColor,
) -> bool {
    forall|x: u64|
        #[trigger] graph.count(x, x, color) <= between_images(e0, find_map(p), x, x, color)
}

/// `k` is an end of a gray edge of the graph.
pub open spec fn is_gray_end(graph: BiedgedGraph, k: u64) -> bool {
    exists|y: u64| #[trigger] graph.count(k, y, EdgeColor::Gray) > 0
}

/// The entries of the map `p` that the map `p0` did not have are those of
/// vertices of `g0` that were merged along gray edges: every entry of `p0`
/// is still there, and an entry that is new or changed has as its key an end
/// of a gray edge of `g0` and as its value a vertex that is preferred to the
/// key.
#[verifier::opaque]
pub open spec fn entries_fit(g0: BiedgedGraph, p0: Map<u64, u64>, p: Map<u64, u64>) -> bool {
    &&& forall|k: u64| p0.contains_key(k) ==> #[trigger] p.contains_key(k)
    &&& forall|k: u64|
        #[trigger] p.contains_key(k) && !(p0.contains_key(k) && p0[k] == p[k]) ==> {
            &&& g0.has_node(k)
            &&& is_gray_end(g0, k)
            &&& prefers(p[k], k)
        }
}

/// Every vertex of `g0` lies in one gray component with what stands for it.
#[verifier::opaque]
pub open spec fn stays_in_component(g0: BiedgedGraph, p: Map<u64, u64>) -> bool {
    forall|x: u64|
        g0.has_node(x) ==> connected(g0.edge_seq(), x, #[trigger] find(p, x), EdgeColor::Gray)
}

/// What one merge does to the edges: the edges of `g2` are those of `g`
/// with `dropped` read as `kept`, less one loop at `kept` of the colour of
/// the edge that was contracted, if one was.
pub open spec fn merged_edges(
    g: BiedgedGraph,
    g2: BiedgedGraph,
    kept: u64,
    dropped: u64,
    contracted: Option<EdgeColor>,
) -> bool {
    forall|x: u64, y: u64, c: EdgeColor|
        #[trigger] g2.count(x, y, c) == between_images(
            g.edge_seq(),
            merge_map(kept, dropped),
            x,
            y,
            c,
        ) - (if contracted == Some(c) && x == kept && y == kept {
            1int
        } else {
            0int
        })
}

/// A graph with a map that fits it represents itself and is its own
/// quotient.
proof fn lemma_start(g0: BiedgedGraph, p0: Map<u64, u64>)
    requires
        g0.wf(),
        fits(p0, g0),
    ensures
        represents(g0, p0, g0, p0),
        prefers_all(g0, p0),
        is_quotient(g0, g0.edge_seq(), p0, EdgeColor::Black, true),
        is_quotient(g0, g0.edge_seq(), p0, EdgeColor::Gray, true),
        stays_in_component(g0, p0),
{
    reveal(represents);
    reveal(prefers_all);
    reveal(is_quotient);
    reveal(stays_in_component);
    let e0 = g0.edge_seq();
    assert forall|x: u64| g0.has_node(x) implies g0.has_node(#[trigger] find(p0, x)) && prefers(
        find(p0, x),
        x,
    ) && connected(e0, x, find(p0, x), EdgeColor::Gray) by {
        lemma_find_of_root(p0, x);
        lemma_connected_refl(e0, x, EdgeColor::Gray);
    }
    assert forall|x: u64| #[trigger] find(p0, x) == find(p0, find(p0, x)) by {
        assert(reaches_root(p0, x));
        lemma_find_of_root(p0, find(p0, x));
    }
    assert forall|i: int| 0 <= i < e0.len() implies find_map(p0)((#[trigger] e0[i]).from)
        == e0[i].from && find_map(p0)(e0[i].to) == e0[i].to by {
        assert(g0.has_node(e0[i].from) && g0.has_node(e0[i].to));
        lemma_find_of_root(p0, e0[i].from);
        lemma_find_of_root(p0, e0[i].to);
    }
    assert forall|x: u64, y: u64, color: EdgeColor| #[trigger]
        g0.count(x, y, color) == between_images(e0, find_map(p0), x, y, color) by {
        lemma_images_of_fixed(e0, find_map(p0), x, y, color);
    }
}

/// Merging a vertex of the graph into another keeps the graph a
/// representation of `g0`.
proof fn lemma_merge_represents(
    g0: BiedgedGraph,
    p0: Map<u64, u64>,
    g: BiedgedGraph,
    p: Map<u64, u64>,
    g2: BiedgedGraph,
    kept: u64,
    dropped: u64,
)
    requires
        represents(g0, p0, g, p),
        g.has_node(kept),
        g.has_node(dropped),
        forall|x: u64| g2.has_node(x) <==> (g.has_node(x) && (x != dropped || kept == dropped)),
    ensures
        represents(g0, p0, g2, link(p, kept, dropped)),
        moved(p, link(p, kept, dropped), kept, dropped),
{
    reveal(represents);
    let q = link(p, kept, dropped);
    assert forall|x: u64| reaches_root(q, x) && #[trigger] find(q, x) == (if find(p, x) == dropped {
        kept
    } else {
        find(p, x)
    }) by {
        assert(reaches_root(p, x));
        lemma_link(p, kept, dropped, x);
    }
    assert forall|x: u64| reaches_root(q, x) by {
        assert(reaches_root(p, x));
        lemma_link(p, kept, dropped, x);
    }
    assert forall|y: u64| g2.has_node(y) implies is_root(q, y) by {
        assert(g.has_node(y));
        assert(is_root(p, y));
    }
    assert forall|x: u64| #[trigger] find(q, x) == find(q, find(p0, x)) by {
        assert(find(p, x) == find(p, find(p0, x)));
    }
    assert forall|x: u64| g0.has_node(x) implies g2.has_node(#[trigger] find(q, x)) by {
        assert(g.has_node(find(p, x)));
    }
    assert forall|y: u64| is_root(p0, y) && !g0.has_node(y) implies is_root(q, y) by {
        assert(is_root(p, y));
    }
}

/// Merging a vertex into one that is preferred to it keeps every
/// representative preferred.
proof fn lemma_merge_prefers(
    g0: BiedgedGraph,
    p: Map<u64, u64>,
    q: Map<u64, u64>,
    kept: u64,
    dropped: u64,
)
    requires
        prefers_all(g0, p),
        moved(p, q, kept, dropped),
        prefers(kept, dropped),
    ensures
        prefers_all(g0, q),
{
    reveal(prefers_all);
    assert forall|x: u64| g0.has_node(x) implies prefers(#[trigger] find(q, x), x) by {
        assert(prefers(find(p, x), x));
    }
}

/// Merging two vertices of a quotient of `e0` gives a quotient of `e0`.
proof fn lemma_merge_keeps_quotient(
    e0: Seq<BiedgedEdge>,
    g: BiedgedGraph,
    g2: BiedgedGraph,
    p: Map<u64, u64>,
    q: Map<u64, u64>,
    kept: u64,
    dropped: u64,
    contracted: Option<EdgeColor>,
    color: EdgeColor,
    loops: bool,
)
    requires
        is_quotient(g, e0, p, color, loops),
        merged_edges(g, g2, kept, dropped, contracted),
        moved(p, q, kept, dropped),
        loops ==> contracted != Some(color),
    ensures
        is_quotient(g2, e0, q, color, loops),
{
    reveal(is_quotient);
    let e = g.edge_seq();
    let same = |a: u64| a;
    let m = merge_map(kept, dropped);
    let fp = find_map(p);
    let fq = find_map(q);
    assert forall|i: int| 0 <= i < e0.len() implies {
        &&& fq((#[trigger] e0[i]).from) == (if fp(e0[i].from) == dropped {
            kept
        } else {
            fp(e0[i].from)
        })
        &&& fq(e0[i].to) == (if fp(e0[i].to) == dropped {
            kept
        } else {
            fp(e0[i].to)
        })
    } by {
        assert(fq(e0[i].from) == find(q, e0[i].from));
        assert(fq(e0[i].to) == find(q, e0[i].to));
        assert(fp(e0[i].from) == find(p, e0[i].from));
        assert(fp(e0[i].to) == find(p, e0[i].to));
    }
    assert forall|x: u64, y: u64| (loops || x != y) implies #[trigger] g2.count(x, y, color)
        == between_images(e0, fq, x, y, color) by {
        assert(g2.count(x, y, color) == between_images(e, m, x, y, color));
        if kept == dropped {
            lemma_images_of_fixed(e, m, x, y, color);
            assert(g.count(x, y, color) == between(e, x, y, color));
            lemma_images_agree(e0, fq, fp, x, y, color);
        } else {
            lemma_images_after_merge(e, same, m, kept, dropped, x, y, color);
            lemma_images_after_merge(e0, fp, fq, kept, dropped, x, y, color);
            lemma_images_of_fixed(e, same, kept, kept, color);
            lemma_images_of_fixed(e, same, kept, dropped, color);
            lemma_images_of_fixed(e, same, dropped, dropped, color);
            lemma_images_of_fixed(e, same, kept, y, color);
            lemma_images_of_fixed(e, same, dropped, y, color);
            lemma_images_of_fixed(e, same, x, kept, color);
            lemma_images_of_fixed(e, same, x, dropped, color);
            lemma_images_of_fixed(e, same, x, y, color);
            assert(g.count(kept, kept, color) == between(e, kept, kept, color));
            assert(g.count(kept, dropped, color) == between(e, kept, dropped, color));
            assert(g.count(dropped, dropped, color) == between(e, dropped, dropped, color));
            assert(g.count(kept, y, color) == between(e, kept, y, color));
            assert(g.count(dropped, y, color) == between(e, dropped, y, color));
            assert(g.count(x, kept, color) == between(e, x, kept, color));
            assert(g.count(x, dropped, color) == between(e, x, dropped, color));
            assert(g.count(x, y, color) == between(e, x, y, color));
        }
    }
}

/// Contracting a gray edge merges two vertices of one gray component.
proof fn lemma_contraction_stays_in_component(
    g0: BiedgedGraph,
    g: BiedgedGraph,
    p: Map<u64, u64>,
    q: Map<u64, u64>,
    kept: u64,
    dropped: u64,
)
    requires
        g0.wf(),
        stays_in_component(g0, p),
        is_quotient(g, g0.edge_seq(), p, EdgeColor::Gray, false),
        g.count(kept, dropped, EdgeColor::Gray) > 0,
        moved(p, q, kept, dropped),
    ensures
        stays_in_component(g0, q),
{
    reveal(is_quotient);
    reveal(stays_in_component);
    let e0 = g0.edge_seq();
    let gray = EdgeColor::Gray;
    let fp = find_map(p);
    assert forall|x: u64| g0.has_node(x) implies connected(e0, x, #[trigger] find(q, x), gray) by {
        assert(connected(e0, x, find(p, x), gray));
        if find(p, x) == dropped && kept != dropped {
            assert(between_images(e0, fp, kept, dropped, gray) > 0);
            let i = lemma_image_has_record(e0, fp, kept, dropped, gray);
            let f = e0[i].from;
            let t = e0[i].to;
            assert(fp(f) == find(p, f) && fp(t) == find(p, t));
            lemma_record_in_image(e0, fp, i, gray);
            lemma_connected_edge(e0, f, t, gray);
            assert(g0.has_node(f) && g0.has_node(t));
            assert(connected(e0, f, find(p, f), gray));
            assert(connected(e0, t, find(p, t), gray));
            lemma_connected_sym(e0, f, find(p, f), gray);
            lemma_connected_sym(e0, t, find(p, t), gray);
            lemma_connected_sym(e0, f, t, gray);
            if find(p, f) == kept {
                lemma_connected_trans(e0, dropped, t, f, gray);
                lemma_connected_trans(e0, dropped, f, kept, gray);
            } else {
                lemma_connected_trans(e0, dropped, f, t, gray);
                lemma_connected_trans(e0, dropped, t, kept, gray);
            }
            lemma_connected_trans(e0, x, dropped, kept, gray);
        }
    }
}

/// Merging two vertices of a graph that has no more loops than the
/// quotient of `e0` leaves such a graph.
proof fn lemma_merge_keeps_loops_bounded(
    e0: Seq<BiedgedEdge>,
    g: BiedgedGraph,
    g2: BiedgedGraph,
    p: Map<u64, u64>,
    q: Map<u64, u64>,
    kept: u64,
    dropped: u64,
    contracted: Option<EdgeColor>,
    color: EdgeColor,
)
    requires
        is_quotient(g, e0, p, color, false),
        loops_bounded(g, e0, p, color),
        merged_edges(g, g2, kept, dropped, contracted),
        moved(p, q, kept, dropped),
    ensures
        loops_bounded(g2, e0, q, color),
{
    reveal(is_quotient);
    reveal(loops_bounded);
    let e = g.edge_seq();
    let same = |a: u64| a;
    let m = merge_map(kept, dropped);
    let fp = find_map(p);
    let fq = find_map(q);
    assert forall|i: int| 0 <= i < e0.len() implies {
        &&& fq((#[trigger] e0[i]).from) == (if fp(e0[i].from) == dropped {
            kept
        } else {
            fp(e0[i].from)
        })
        &&& fq(e0[i].to) == (if fp(e0[i].to) == dropped {
            kept
        } else {
            fp(e0[i].to)
        })
    } by {
        assert(fq(e0[i].from) == find(q, e0[i].from));
        assert(fq(e0[i].to) == find(q, e0[i].to));
        assert(fp(e0[i].from) == find(p, e0[i].from));
        assert(fp(e0[i].to) == find(p, e0[i].to));
    }
    assert forall|x: u64| #[trigger] g2.count(x, x, color) <= between_images(e0, fq, x, x, color) by {
        assert(g2.count(x, x, color) <= between_images(e, m, x, x, color));
        if kept == dropped {
            lemma_images_of_fixed(e, m, x, x, color);
            assert(g.count(x, x, color) == between(e, x, x, color));
            lemma_images_agree(e0, fq, fp, x, x, color);
        } else {
            lemma_images_after_merge(e, same, m, kept, dropped, x, x, color);
            lemma_images_after_merge(e0, fp, fq, kept, dropped, x, x, color);
            lemma_images_of_fixed(e, same, kept, kept, color);
            lemma_images_of_fixed(e, same, kept, dropped, color);
            lemma_images_of_fixed(e, same, dropped, dropped, color);
            lemma_images_of_fixed(e, same, x, x, color);
            assert(g.count(kept, kept, color) == between(e, kept, kept, color));
            assert(g.count(kept, dropped, color) == between(e, kept, dropped, color));
            assert(g.count(dropped, dropped, color) == between(e, dropped, dropped, color));
            assert(g.count(x, x, color) == between(e, x, x, color));
        }
    }
}

/// A vertex of `g0` that has a gray edge makes what stands for it an end of
/// a gray edge.
proof fn lemma_stands_for_gray_end(g0: BiedgedGraph, p: Map<u64, u64>, a: u64, other: u64)
    requires
        g0.has_node(a),
        stays_in_component(g0, p),
        g0.count(a, other, EdgeColor::Gray) > 0,
    ensures
        is_gray_end(g0, find(p, a)),
{
    reveal(stays_in_component);
    let u = find(p, a);
    if a != u {
        assert(connected(g0.edge_seq(), a, u, EdgeColor::Gray));
        let y = lemma_connected_last_edge(g0.edge_seq(), a, u, EdgeColor::Gray);
        assert(g0.count(u, y, EdgeColor::Gray) > 0);
    }
}

/// Both ends of a gray edge of the graph are ends of gray edges of `g0`.
proof fn lemma_contracted_ends(
    g0: BiedgedGraph,
    g: BiedgedGraph,
    p: Map<u64, u64>,
    u: u64,
    v: u64,
)
    requires
        g0.wf(),
        stays_in_component(g0, p),
        is_quotient(g, g0.edge_seq(), p, EdgeColor::Gray, false),
        loops_bounded(g, g0.edge_seq(), p, EdgeColor::Gray),
        g.count(u, v, EdgeColor::Gray) > 0,
    ensures
        is_gray_end(g0, u),
        is_gray_end(g0, v),
{
    reveal(is_quotient);
    reveal(loops_bounded);
    let e0 = g0.edge_seq();
    let gray = EdgeColor::Gray;
    let fp = find_map(p);
    assert(between_images(e0, fp, u, v, gray) > 0);
    let i = lemma_image_has_record(e0, fp, u, v, gray);
    let f = e0[i].from;
    let t = e0[i].to;
    assert(fp(f) == find(p, f) && fp(t) == find(p, t));
    lemma_record_in_image(e0, fp, i, gray);
    lemma_between_symmetric(e0, f, t, gray);
    assert(g0.has_node(f) && g0.has_node(t));
    assert(g0.count(f, t, gray) > 0);
    assert(g0.count(t, f, gray) > 0);
    lemma_stands_for_gray_end(g0, p, f, t);
    lemma_stands_for_gray_end(g0, p, t, f);
}

/// Writing the entries of the two ends of a contracted gray edge.
proof fn lemma_entries_fit_step(
    g0: BiedgedGraph,
    p0: Map<u64, u64>,
    p: Map<u64, u64>,
    q: Map<u64, u64>,
    from: u64,
    to: u64,
    kept: u64,
)
    requires
        entries_fit(g0, p0, p),
        q == p.insert(from, kept).insert(to, kept),
        g0.has_node(from),
        g0.has_node(to),
        is_gray_end(g0, from),
        is_gray_end(g0, to),
        prefers(kept, from),
        prefers(kept, to),
    ensures
        entries_fit(g0, p0, q),
{
    reveal(entries_fit);
    assert forall|k: u64| p0.contains_key(k) implies #[trigger] q.contains_key(k) by {
        assert(p.contains_key(k));
    }
    assert forall|k: u64|
        #[trigger] q.contains_key(k) && !(p0.contains_key(k) && p0[k] == q[k]) implies {
        &&& g0.has_node(k)
        &&& is_gray_end(g0, k)
        &&& prefers(q[k], k)
    } by {
        if k != from && k != to {
            assert(p.contains_key(k));
        }
    }
}

/// Once no gray edge is left, two vertices of `g0` have one representative
/// exactly if they lie in one gray component of `g0`.
proof fn lemma_representatives_are_components(
    g0: BiedgedGraph,
    g: BiedgedGraph,
    p: Map<u64, u64>,
    a: u64,
    b: u64,
)
    requires
        g0.wf(),
        stays_in_component(g0, p),
        is_quotient(g, g0.edge_seq(), p, EdgeColor::Gray, false),
        g.color_total(EdgeColor::Gray) == 0,
        g0.has_node(a),
        g0.has_node(b),
    ensures
        find(p, a) == find(p, b) <==> connected(g0.edge_seq(), a, b, EdgeColor::Gray),
{
    reveal(is_quotient);
    reveal(stays_in_component);
    let e0 = g0.edge_seq();
    let gray = EdgeColor::Gray;
    let rep = find_map(p);
    if connected(e0, a, b, gray) {
        assert forall|k: int|
            0 <= k < e0.len() && (#[trigger] e0[k]).weight.count(gray) > 0 implies rep(e0[k].from)
            == rep(e0[k].to) by {
            let s = find(p, e0[k].from);
            let t = find(p, e0[k].to);
            assert(rep(e0[k].from) == s && rep(e0[k].to) == t);
            if s != t {
                lemma_record_in_image(e0, rep, k, gray);
                lemma_between_le_total(g.edge_seq(), s, t, gray);
                assert(g.count(s, t, gray) == between_images(e0, rep, s, t, gray));
            }
        }
        lemma_connected_one_image(e0, rep, a, b, gray);
        assert(rep(a) == find(p, a) && rep(b) == find(p, b));
    }
    if find(p, a) == find(p, b) {
        assert(connected(e0, a, find(p, a), gray));
        assert(connected(e0, b, find(p, b), gray));
        lemma_connected_sym(e0, b, find(p, b), gray);
        lemma_connected_trans(e0, a, find(p, a), b, gray);
    }
}

/// Contracts every gray edge of the graph, and records in `proj_map` which
/// vertex each vertex was merged into.
///
/// Afterwards there is no gray edge, and the vertices are the connected
/// components of the gray edges: two vertices of the graph as it was have
/// one representative exactly if a path of gray edges joined them, and the
/// representative is the one among them that is preferred. Every black edge
/// is still there, between the representatives of its endpoints.
pub fn contract_all_gray_edges(biedged: &mut BiedgedGraph, proj_map: &mut BTreeMap<u64, u64>)
    requires
        old(biedged).wf(),
        fits(old(proj_map)@, *old(biedged)),
    ensures
        final(biedged).wf(),
        fits(final(proj_map)@, *final(biedged)),
        final(biedged).color_total(EdgeColor::Gray) == 0,
        final(biedged).color_total(EdgeColor::Black) == old(biedged).color_total(EdgeColor::Black),
        forall|x: u64|
            old(biedged).has_node(x) ==> final(biedged).has_node(
                #[trigger] find(final(proj_map)@, x),
            ),
        forall|y: u64| final(biedged).has_node(y) ==> old(biedged).has_node(y),
        forall|x: u64|
            old(biedged).has_node(x) ==> prefers(#[trigger] find(final(proj_map)@, x), x),
        forall|x: u64|
            #[trigger] find(final(proj_map)@, x) == find(
                final(proj_map)@,
                find(old(proj_map)@, x),
            ),
        forall|y: u64|
            is_root(old(proj_map)@, y) && !old(biedged).has_node(y) ==> is_root(
                final(proj_map)@,
                y,
            ),
        forall|x: u64, y: u64|
            #[trigger] final(biedged).count(x, y, EdgeColor::Black) == between_images(
                old(biedged).edge_seq(),
                find_map(final(proj_map)@),
                x,
                y,
                EdgeColor::Black,
            ),
        forall|a: u64, b: u64|
            old(biedged).has_node(a) && old(biedged).has_node(b) ==> (find(final(proj_map)@, a)
                == find(final(proj_map)@, b) <==> #[trigger] connected(
                old(biedged).edge_seq(),
                a,
                b,
                EdgeColor::Gray,
            )),
        forall|k: u64| old(proj_map)@.contains_key(k) ==> #[trigger] final(proj_map)@.contains_key(k),
        forall|k: u64|
            old(proj_map)@.contains_key(k) && !old(biedged).has_node(k) ==> #[trigger] final(proj_map)@[k] == old(proj_map)@[k],
        forall|k: u64|
            #[trigger] final(proj_map)@.contains_key(k) && !(old(proj_map)@.contains_key(k) && old(proj_map)@[k] == final(proj_map)@[k]) ==> {
                &&& old(biedged).has_node(k)
                &&& is_gray_end(*old(biedged), k)
                &&& prefers(final(proj_map)@[k], k)
            },
{
    let ghost g0 = *biedged;
    let ghost p0 = proj_map@;
    proof {
        lemma_start(g0, p0);
        assert(loops_bounded(g0, g0.edge_seq(), p0, EdgeColor::Gray)) by {
            reveal(is_quotient);
            reveal(loops_bounded);
        }
        lemma_quotient_without_loops(g0, g0.edge_seq(), p0, EdgeColor::Gray);
        assert(entries_fit(g0, p0, p0)) by {
            reveal(entries_fit);
        }
    }
    loop
        invariant
            g0.wf(),
            biedged.wf(),
            loops_bounded(*biedged, g0.edge_seq(), proj_map@, EdgeColor::Gray),
            entries_fit(g0, p0, proj_map@),
            biedged.color_total(EdgeColor::Black) == g0.color_total(EdgeColor::Black),
            represents(g0, p0, *biedged, proj_map@),
            prefers_all(g0, proj_map@),
            is_quotient(*biedged, g0.edge_seq(), proj_map@, EdgeColor::Black, true),
            is_quotient(*biedged, g0.edge_seq(), proj_map@, EdgeColor::Gray, false),
            stays_in_component(g0, proj_map@),
        ensures
            biedged.color_total(EdgeColor::Gray) == 0,
        decreases biedged.color_total(EdgeColor::Gray),
    {
        let ghost g = *biedged;
        let ghost p = proj_map@;
        let (from, to) = match biedged.first_edge_of(EdgeColor::Gray) {
            Some(ends) => ends,
            None => {
                break ;
            },
        };
        let (kept, dropped) = survivor(from, to);
        proof {
            lemma_between_symmetric(g.edge_seq(), from, to, EdgeColor::Gray);
            lemma_contracted_ends(g0, g, p, from, to);
            assert(g0.has_node(from) && g0.has_node(to)) by {
                reveal(represents);
            }
        }
        let left = biedged.contract_edge(kept, dropped, EdgeColor::Gray);
        proj_map.insert(from, kept);
        proj_map.insert(to, kept);
        proof {
            let q = proj_map@;
            assert(q =~= link(p, kept, dropped));
            assert(merged_edges(g, *biedged, kept, dropped, Some(EdgeColor::Gray)));
            lemma_merge_represents(g0, p0, g, p, *biedged, kept, dropped);
            lemma_merge_prefers(g0, p, q, kept, dropped);
            lemma_merge_keeps_quotient(
                g0.edge_seq(),
                g,
                *biedged,
                p,
                q,
                kept,
                dropped,
                Some(EdgeColor::Gray),
                EdgeColor::Black,
                true,
            );
            lemma_merge_keeps_quotient(
                g0.edge_seq(),
                g,
                *biedged,
                p,
                q,
                kept,
                dropped,
                Some(EdgeColor::Gray),
                EdgeColor::Gray,
                false,
            );
            lemma_merge_keeps_loops_bounded(
                g0.edge_seq(),
                g,
                *biedged,
                p,
                q,
                kept,
                dropped,
                Some(EdgeColor::Gray),
                EdgeColor::Gray,
            );
            lemma_contraction_stays_in_component(g0, g, p, q, kept, dropped);
            lemma_entries_fit_step(g0, p0, p, q, from, to, kept);
        }
    }
    proof {
        reveal(represents);
        reveal(prefers_all);
        reveal(is_quotient);
        reveal(entries_fit);
        assert forall|k: u64| p0.contains_key(k) && !g0.has_node(k) implies #[trigger] proj_map@[k]
            == p0[k] by {
            assert(proj_map@.contains_key(k));
        }
        assert forall|a: u64, b: u64| g0.has_node(a) && g0.has_node(b) implies (find(proj_map@, a)
            == find(proj_map@, b) <==> #[trigger] connected(
            g0.edge_seq(),
            a,
            b,
            EdgeColor::Gray,
        )) by {
            lemma_representatives_are_components(g0, *biedged, proj_map@, a, b);
        }
    }
}

/// `n` copies of one pair.
pub open spec fn repeated(pair: (usize, usize), n: nat) -> Seq<(usize, usize)> {
    Seq::new(n, |i: int| pair)
}

/// The black edges as a list of pairs of vertices, in the order of the edge
/// list, an edge of multiplicity `k` written `k` times.
pub open spec fn black_edge_list(edges: Seq<BiedgedEdge>) -> Seq<(usize, usize)>
    decreases edges.len(),
{
    if edges.len() == 0 {
        Seq::empty()
    } else {
        black_edge_list(edges.drop_last()) + repeated(
            (edges.last().from as usize, edges.last().to as usize),
            edges.last().weight.black as nat,
        )
    }
}

/// The black edges of the graph as a list of pairs of vertices, an edge of
/// multiplicity `k` written `k` times.
pub fn black_edges_with_multiplicity(biedged: &BiedgedGraph) -> (list: Vec<(usize, usize)>)
    ensures
        list@ == black_edge_list(biedged.edge_seq()),
{
    let edges = biedged.all_edges();
    let mut list: Vec<(usize, usize)> = Vec::new();
    let mut k: usize = 0;
    proof {
        assert(edges@.take(0) =~= Seq::<BiedgedEdge>::empty());
    }
    while k < edges.len()
        invariant
            k <= edges.len(),
            list@ == black_edge_list(edges@.take(k as int)),
        decreases edges.len() - k,
    {
        let e = edges[k];
        let pair = (#[verifier::truncate] (e.from as usize), #[verifier::truncate] (e.to as usize));
        let ghost before = list@;
        let mut c: usize = 0;
        while c < e.weight.black
            invariant
                c <= e.weight.black,
                list@ == before + repeated(pair, c as nat),
            decreases e.weight.black - c,
        {
            list.push(pair);
            c += 1;
            proof {
                assert(list@ =~= before + repeated(pair, c as nat));
            }
        }
        proof {
            assert(edges@.take(k as int + 1).drop_last() =~= edges@.take(k as int));
            assert(edges@.take(k as int + 1).last() == e);
        }
        k += 1;
    }
    proof {
        assert(edges@.take(k as int) =~= edges@);
    }
    list
}

/// The lists that have more than one member.
pub open spec fn more_than_one() -> spec_fn(Seq<usize>) -> bool {
    |c: Seq<usize>| c.len() > 1
}

fn copy_list(list: &Vec<usize>) -> (copy: Vec<usize>)
    ensures
        copy@ == list@,
{
    let mut copy: Vec<usize> = Vec::new();
    let mut i: usize = 0;
    while i < list.len()
        invariant
            i <= list.len(),
            copy@ == list@.take(i as int),
        decreases list.len() - i,
    {
        copy.push(list[i]);
        i += 1;
        proof {
            assert(copy@ =~= list@.take(i as int));
        }
    }
    proof {
        assert(list@.take(i as int) =~= list@);
    }
    copy
}

/// The components with more than one vertex, in their order: a vertex
/// alone is 3-edge-connected with itself and of no interest.
pub fn non_singletons(components: &Vec<Vec<usize>>) -> (kept: Vec<Vec<usize>>)
    ensures
        lists(kept@) == lists(components@).filter(more_than_one()),
{
    let mut kept: Vec<Vec<usize>> = Vec::new();
    let mut i: usize = 0;
    proof {
        reveal(Seq::filter);
        assert(lists(components@.take(0)) =~= Seq::<Seq<usize>>::empty());
        assert(lists(kept@) =~= Seq::<Seq<usize>>::empty());
    }
    while i < components.len()
        invariant
            i <= components.len(),
            lists(kept@) == lists(components@.take(i as int)).filter(more_than_one()),
        decreases components.len() - i,
    {
        let ghost had = kept@;
        let ghost now = lists(components@.take(i as int + 1));
        proof {
            let prev = lists(components@.take(i as int));
            assert(now =~= prev.push(components@[i as int]@));
            prev.lemma_filter_push(components@[i as int]@, more_than_one());
        }
        if components[i].len() > 1 {
            let c = copy_list(&components[i]);
            kept.push(c);
            proof {
                assert(lists(kept@) =~= lists(had).push(components@[i as int]@));
            }
        }
        proof {
            assert(lists(kept@) == now.filter(more_than_one()));
        }
        i += 1;
    }
    proof {
        assert(components@.take(i as int) =~= components@);
    }
    kept
}

/// Whether every number in the components with more than one member is
/// below `bound`.
pub fn numbers_below(components: &Vec<Vec<usize>>, bound: usize) -> (r: bool)
    ensures
        r == all_below(lists(components@), bound as nat),
{
    let mut i: usize = 0;
    while i < components.len()
        invariant
            i <= components.len(),
            forall|k: int, j: int|
                0 <= k < i && components@[k]@.len() > 1 && 0 <= j < components@[k]@.len()
                    ==> #[trigger] components@[k]@[j] < bound,
        decreases components.len() - i,
    {
        let c = &components[i];
        if c.len() > 1 {
            let mut j: usize = 0;
            while j < c.len()
                invariant
                    j <= c.len(),
                    i < components.len(),
                    c@ == components@[i as int]@,
                    c@.len() > 1,
                    forall|l: int| 0 <= l < j ==> #[trigger] c@[l] < bound,
                decreases c.len() - j,
            {
                if c[j] >= bound {
                    proof {
                        assert(lists(components@)[i as int] == c@);
                        assert(lists(components@)[i as int][j as int] >= bound);
                    }
                    return false;
                }
                j += 1;
            }
        }
        i += 1;
    }
    proof {
        assert forall|k: int, j: int|
            0 <= k < lists(components@).len() && lists(components@)[k].len() > 1 && 0 <= j < lists(
                components@,
            )[k].len() implies #[trigger] lists(components@)[k][j] < bound by {
            assert(components@[k]@[j] < bound);
        }
    }
    true
}

/// What is made of the components that were found over the numbers of the
/// vertices: those with more than one member, each number replaced by its
/// vertex, or `None` where one of them holds a number that no vertex has.
pub open spec fn named_components(vertices: Seq<usize>, found: Seq<Seq<usize>>) -> Option<
    Seq<Seq<usize>>,
> {
    let kept = found.filter(more_than_one());
    if all_below(kept, vertices.len()) {
        Some(named(vertices, kept))
    } else {
        None
    }
}

/// Every component has more than one member, and every member is one of
/// the vertices.
pub open spec fn components_among(vertices: Seq<usize>, components: Seq<Seq<usize>>) -> bool {
    forall|i: int|
        0 <= i < components.len() ==> {
            &&& (#[trigger] components[i]).len() > 1
            &&& forall|j: int|
                0 <= j < components[i].len() ==> vertices.contains(#[trigger] components[i][j])
        }
}

/// Filtering lists that all have more than one member keeps them all.
proof fn lemma_filter_keeps_all(s: Seq<Seq<usize>>)
    requires
        forall|i: int| 0 <= i < s.len() ==> (#[trigger] s[i]).len() > 1,
    ensures
        s.filter(more_than_one()) == s,
    decreases s.len(),
{
    reveal(Seq::filter);
    if s.len() > 0 {
        assert forall|i: int| 0 <= i < s.drop_last().len() implies (#[trigger] s.drop_last()[i]).len()
            > 1 by {
            assert(s.drop_last()[i] == s[i]);
        }
        lemma_filter_keeps_all(s.drop_last());
        assert(s.last() == s[s.len() - 1]);
        assert(s.drop_last().push(s.last()) =~= s);
    }
}

/// What `named_components` gives holds components of more than one member
/// each, all of them vertices.
pub proof fn lemma_named_components(vertices: Seq<usize>, found: Seq<Seq<usize>>)
    ensures
        match named_components(vertices, found) {
            Some(components) => components_among(vertices, components),
            None => true,
        },
{
    let kept = found.filter(more_than_one());
    if all_below(kept, vertices.len()) {
        assert forall|i: int| 0 <= i < kept.len() implies (#[trigger] kept[i]).len() > 1 by {
            found.lemma_filter_pred(more_than_one(), i);
        }
        lemma_filter_keeps_all(kept);
        let components = named(vertices, kept);
        assert forall|i: int| 0 <= i < components.len() implies {
            &&& (#[trigger] components[i]).len() > 1
            &&& forall|j: int|
                0 <= j < components[i].len() ==> vertices.contains(#[trigger] components[i][j])
        } by {
            assert(kept[i].len() > 1);
            assert forall|j: int| 0 <= j < components[i].len() implies vertices.contains(
                #[trigger] components[i][j],
            ) by {
                assert(kept[i][j] < vertices.len());
                assert(components[i][j] == vertices[kept[i][j] as int]);
            }
        }
    }
}

/// Makes of the components that were found over the numbers of the
/// vertices of a graph those over its vertices: drops the components of one
/// member and gives every number its vertex back. `None` where a component
/// holds a number that no vertex has.
pub fn components_with_vertices(
    graph: &three_edge_connected::Graph<usize>,
    found: &Vec<Vec<usize>>,
) -> (r: Option<Vec<Vec<usize>>>)
    ensures
        match r {
            Some(components) => Some(lists(components@)),
            None => None,
        } == named_components(tec_names(*graph), lists(found@)),
{
    let components = non_singletons(found);
    if !numbers_below(&components, vertex_count(graph)) {
        return None;
    }
    let components = invert_components(graph, components);
    Some(components)
}

/// Components that hold numbers of vertices only give components of
/// vertices.
proof fn lemma_numbers_are_named(vertices: Seq<usize>, found: Seq<Seq<usize>>)
    requires
        forall|i: int, j: int|
            0 <= i < found.len() && 0 <= j < found[i].len() ==> #[trigger] found[i][j]
                < vertices.len(),
    ensures
        named_components(vertices, found) is Some,
{
    let kept = found.filter(more_than_one());
    assert forall|i: int, j: int|
        0 <= i < kept.len() && kept[i].len() > 1 && 0 <= j < kept[i].len() implies #[trigger] kept[i][j]
        < vertices.len() by {
        assert(kept.contains(kept[i]));
        found.lemma_filter_contains_rev(more_than_one(), kept[i]);
        let at = choose|at: int| 0 <= at < found.len() && found[at] == kept[i];
        assert(found[at][j] < vertices.len());
    }
}

/// The 3-edge-connected components of the black edges of the graph that
/// have more than one vertex, each as the list of its vertices.
///
/// Which components there are is for `three_edge_connected` to say. Of
/// what comes back this much holds: it is what [`components_with_vertices`]
/// makes of components over the numbers of the vertices, so every
/// component has more than one member, and every member is an endpoint of a
/// black edge.
pub fn find_3_edge_connected_components(biedged: &BiedgedGraph) -> (components: Vec<Vec<usize>>)
    ensures
        exists|found: Seq<Seq<usize>>|
            #[trigger] named_components(
                first_seen(black_edge_list(biedged.edge_seq())),
                found,
            ) == Some(lists(components@)),
        components_among(
            first_seen(black_edge_list(biedged.edge_seq())),
            lists(components@),
        ),
{
    let edges = black_edges_with_multiplicity(biedged);
    let graph = graph_from_edges(&edges);
    let found = find_components(&graph);
    proof {
        assert forall|i: int, j: int|
            0 <= i < lists(found@).len() && 0 <= j < lists(found@)[i].len() implies #[trigger] lists(
            found@,
        )[i][j] < first_seen(edges@).len() by {
            assert(found@[i]@[j] < tec_names(graph).len());
        }
        lemma_numbers_are_named(first_seen(edges@), lists(found@));
        lemma_named_components(first_seen(edges@), lists(found@));
    }
    components_with_vertices(&graph, &found).unwrap()
}

/// `(i, j)` is the place of a member of a component.
pub open spec fn is_member(components: Seq<Seq<usize>>, i: int, j: int) -> bool {
    0 <= i < components.len() && 0 <= j < components[i].len()
}

/// The components can be merged: none is empty, every member is a vertex
/// of the graph, and no vertex is named twice.
pub open spec fn mergeable(graph: BiedgedGraph, components: Seq<Seq<usize>>) -> bool {
    &&& forall|i: int| 0 <= i < components.len() ==> (#[trigger] components[i]).len() > 0
    &&& forall|i: int, j: int|
        is_member(components, i, j) ==> graph.has_node(#[trigger] components[i][j] as u64)
    &&& forall|i: int, j: int, k: int, l: int|
        is_member(components, i, j) && is_member(components, k, l) && (i != k || j != l)
            ==> #[trigger] components[i][j] != #[trigger] components[k][l]
}

/// The place `(k, l)` comes before the place `(i, j)`.
pub open spec fn comes_before(k: int, l: int, i: int, j: int) -> bool {
    k < i || (k == i && l < j)
}

/// Where the merging stands when every member before the place `(i, j)`
/// has been merged into the first of its component: those members are
/// stood for by the first of their component, every other vertex of `g0`
/// still stands for itself.
#[verifier::opaque]
pub open spec fn merged_up_to(
    g0: BiedgedGraph,
    components: Seq<Seq<usize>>,
    i: int,
    j: int,
    g: BiedgedGraph,
    p: Map<u64, u64>,
) -> bool {
    &&& forall|k: int, l: int|
        is_member(components, k, l) && comes_before(k, l, i, j) ==> find(
            p,
            #[trigger] components[k][l] as u64,
        ) == components[k][0] as u64 && g.has_node(components[k][0] as u64)
    &&& forall|k: int, l: int|
        is_member(components, k, l) && !comes_before(k, l, i, j) ==> find(
            p,
            #[trigger] components[k][l] as u64,
        ) == components[k][l] as u64 && g.has_node(components[k][l] as u64)
    &&& forall|x: u64|
        g0.has_node(x) && (forall|k: int, l: int|
            is_member(components, k, l) ==> #[trigger] components[k][l] as u64 != x)
            ==> #[trigger] find(p, x) == x
}

proof fn lemma_merging_starts(g0: BiedgedGraph, components: Seq<Seq<usize>>, p0: Map<u64, u64>)
    requires
        mergeable(g0, components),
        fits(p0, g0),
    ensures
        merged_up_to(g0, components, 0, 0, g0, p0),
{
    reveal(merged_up_to);
    assert forall|k: int, l: int| is_member(components, k, l) implies find(
        p0,
        #[trigger] components[k][l] as u64,
    ) == components[k][l] as u64 by {
        lemma_find_of_root(p0, components[k][l] as u64);
    }
    assert forall|x: u64| g0.has_node(x) implies #[trigger] find(p0, x) == x by {
        lemma_find_of_root(p0, x);
    }
}

/// Going on to the next place without a merge: from the first member of a
/// component to its second, and from the end of a component to the start of
/// the next.
proof fn lemma_merging_moves_on(
    g0: BiedgedGraph,
    components: Seq<Seq<usize>>,
    i: int,
    j: int,
    g: BiedgedGraph,
    p: Map<u64, u64>,
)
    requires
        merged_up_to(g0, components, i, j, g, p),
        0 <= i < components.len(),
        j == 0 || j == components[i].len(),
        components[i].len() > 0,
    ensures
        j == 0 ==> merged_up_to(g0, components, i, 1, g, p),
        j == components[i].len() ==> merged_up_to(g0, components, i + 1, 0, g, p),
{
    reveal(merged_up_to);
    if j == 0 {
        assert forall|k: int, l: int|
            is_member(components, k, l) && comes_before(k, l, i, 1) implies find(
            p,
            #[trigger] components[k][l] as u64,
        ) == components[k][0] as u64 && g.has_node(components[k][0] as u64) by {
            if !comes_before(k, l, i, 0) {
                assert(k == i && l == 0);
            } else {
                assert(find(p, components[k][l] as u64) == components[k][0] as u64);
            }
        }
    }
    if j == components[i].len() {
        assert forall|k: int, l: int|
            is_member(components, k, l) implies (comes_before(k, l, i, j) <==> comes_before(
            k,
            l,
            i + 1,
            0,
        )) by {}
        assert forall|k: int, l: int|
            is_member(components, k, l) && comes_before(k, l, i + 1, 0) implies find(
            p,
            #[trigger] components[k][l] as u64,
        ) == components[k][0] as u64 && g.has_node(components[k][0] as u64) by {
            assert(comes_before(k, l, i, j));
        }
        assert forall|k: int, l: int|
            is_member(components, k, l) && !comes_before(k, l, i + 1, 0) implies find(
            p,
            #[trigger] components[k][l] as u64,
        ) == components[k][l] as u64 && g.has_node(components[k][l] as u64) by {
            assert(!comes_before(k, l, i, j));
        }
    }
}

/// Merging the member at the place `(i, j)` into the first of its
/// component.
proof fn lemma_merging_step(
    g0: BiedgedGraph,
    components: Seq<Seq<usize>>,
    i: int,
    j: int,
    g: BiedgedGraph,
    p: Map<u64, u64>,
    g2: BiedgedGraph,
    q: Map<u64, u64>,
)
    requires
        mergeable(g0, components),
        merged_up_to(g0, components, i, j, g, p),
        is_member(components, i, j),
        j >= 1,
        moved(p, q, components[i][0] as u64, components[i][j] as u64),
        forall|x: u64| g2.has_node(x) <==> (g.has_node(x) && x != components[i][j] as u64),
    ensures
        merged_up_to(g0, components, i, j + 1, g2, q),
{
    reveal(merged_up_to);
    let kept = components[i][0] as u64;
    let dropped = components[i][j] as u64;
    assert(is_member(components, i, 0));
    assert(components[i][0] != components[i][j]);
    assert forall|k: int, l: int|
        is_member(components, k, l) && comes_before(k, l, i, j + 1) implies find(
        q,
        #[trigger] components[k][l] as u64,
    ) == components[k][0] as u64 && g2.has_node(components[k][0] as u64) by {
        assert(is_member(components, k, 0));
        assert(components[k][0] != components[i][j]);
        if comes_before(k, l, i, j) {
            assert(find(p, components[k][l] as u64) == components[k][0] as u64);
        } else {
            assert(k == i && l == j);
            assert(find(p, components[k][l] as u64) == components[k][l] as u64);
            assert(comes_before(i, 0, i, j));
            assert(find(p, components[i][0] as u64) == components[i][0] as u64);
        }
    }
    assert forall|k: int, l: int|
        is_member(components, k, l) && !comes_before(k, l, i, j + 1) implies find(
        q,
        #[trigger] components[k][l] as u64,
    ) == components[k][l] as u64 && g2.has_node(components[k][l] as u64) by {
        assert(!comes_before(k, l, i, j));
        assert(components[k][l] != components[i][j]);
        assert(find(p, components[k][l] as u64) == components[k][l] as u64);
    }
    assert forall|x: u64|
        g0.has_node(x) && (forall|k: int, l: int|
            is_member(components, k, l) ==> #[trigger] components[k][l] as u64
                != x) implies #[trigger] find(q, x) == x by {
        assert(find(p, x) == x);
        assert(components[i][j] as u64 != x);
    }
}

/// How many vertices merging the components takes away: of each component
/// all but its first.
pub open spec fn merged_away(components: Seq<Seq<usize>>) -> nat
    decreases components.len(),
{
    if components.len() == 0 {
        0
    } else {
        merged_away(components.drop_last()) + (if components.last().len() > 0 {
            (components.last().len() - 1) as nat
        } else {
            0nat
        })
    }
}

/// The member at the place `(k, l)` has got its entry when the merging
/// stands at the place `(i, j)`: a component of one member gets none, and
/// the first member of a component gets its own with the second.
pub open spec fn is_written(components: Seq<Seq<usize>>, k: int, l: int, i: int, j: int) -> bool {
    is_member(components, k, l) && ((k < i && components[k].len() >= 2) || (k == i && l < j && j
        >= 2))
}

/// The entries of the map when the merging stands at the place `(i, j)`:
/// every member that has got its entry has the first member of its
/// component, and every other key has what it had.
#[verifier::opaque]
pub open spec fn entries_up_to(
    p0: Map<u64, u64>,
    components: Seq<Seq<usize>>,
    i: int,
    j: int,
    p: Map<u64, u64>,
) -> bool {
    &&& forall|k: int, l: int|
        is_written(components, k, l, i, j) ==> p.contains_key(#[trigger] components[k][l] as u64)
            && p[components[k][l] as u64] == components[k][0] as u64
    &&& forall|key: u64|
        #![trigger p.contains_key(key)]
        #![trigger p[key]]
        (forall|k: int, l: int|
            is_written(components, k, l, i, j) ==> #[trigger] components[k][l] as u64 != key) ==> (
        p.contains_key(key) == p0.contains_key(key)) && (p0.contains_key(key) ==> p[key]
            == p0[key])
}

proof fn lemma_entries_move_on(
    p0: Map<u64, u64>,
    components: Seq<Seq<usize>>,
    i: int,
    j: int,
    p: Map<u64, u64>,
)
    requires
        entries_up_to(p0, components, i, j, p),
        0 <= i < components.len(),
        j == 0 || j == components[i].len(),
        components[i].len() > 0,
    ensures
        j == 0 ==> entries_up_to(p0, components, i, 1, p),
        j == components[i].len() ==> entries_up_to(p0, components, i + 1, 0, p),
{
    reveal(entries_up_to);
    if j == 0 {
        assert forall|k: int, l: int|
            is_written(components, k, l, i, 1) == is_written(components, k, l, i, 0) by {}
    }
    if j == components[i].len() {
        assert forall|k: int, l: int|
            is_written(components, k, l, i + 1, 0) == is_written(components, k, l, i, j) by {}
    }
}

proof fn lemma_entries_step(
    g0: BiedgedGraph,
    p0: Map<u64, u64>,
    components: Seq<Seq<usize>>,
    i: int,
    j: int,
    p: Map<u64, u64>,
    q: Map<u64, u64>,
)
    requires
        mergeable(g0, components),
        entries_up_to(p0, components, i, j, p),
        is_member(components, i, j),
        j >= 1,
        q == p.insert(components[i][0] as u64, components[i][0] as u64).insert(
            components[i][j] as u64,
            components[i][0] as u64,
        ),
    ensures
        entries_up_to(p0, components, i, j + 1, q),
{
    reveal(entries_up_to);
    let head = components[i][0] as u64;
    let other = components[i][j] as u64;
    assert(is_member(components, i, 0));
    assert(components[i][0] != components[i][j]);
    assert(is_written(components, i, 0, i, j + 1));
    assert(is_written(components, i, j, i, j + 1));
    assert forall|k: int, l: int| is_written(components, k, l, i, j + 1) implies q.contains_key(
        #[trigger] components[k][l] as u64,
    ) && q[components[k][l] as u64] == components[k][0] as u64 by {
        if k == i && l == j {
        } else if k == i && l == 0 {
        } else {
            assert(components[k][l] != components[i][j]);
            assert(components[k][l] != components[i][0]);
            assert(is_written(components, k, l, i, j));
        }
    }
    assert forall|key: u64|
        #![trigger q.contains_key(key)]
        #![trigger q[key]]
        (forall|k: int, l: int|
            is_written(components, k, l, i, j + 1) ==> #[trigger] components[k][l] as u64
                != key) implies (q.contains_key(key) == p0.contains_key(key)) && (p0.contains_key(
        key,
    ) ==> q[key] == p0[key]) by {
        assert(components[i][0] as u64 != key);
        assert(components[i][j] as u64 != key);
        assert forall|k: int, l: int| is_written(components, k, l, i, j) implies #[trigger] components[k][l] as u64
            != key by {
            assert(is_written(components, k, l, i, j + 1));
        }
        assert(p.contains_key(key) == p0.contains_key(key));
        assert(p0.contains_key(key) ==> p[key] == p0[key]);
    }
}

/// The graph `g` with the map `p` is the graph `g0` with the map `p0`
/// after every component has been merged into its first vertex: every
/// member of a component of more than one has the entry to the first, every
/// other key has the entry that it had, every member of a component is
/// stood for by the first vertex of its component, every other vertex by
/// itself, and every edge is still there, between the representatives of
/// its endpoints.
pub open spec fn merged_by(
    g0: BiedgedGraph,
    p0: Map<u64, u64>,
    components: Seq<Seq<usize>>,
    g: BiedgedGraph,
    p: Map<u64, u64>,
) -> bool {
    &&& g.wf()
    &&& fits(p, g)
    &&& forall|color: EdgeColor| g.color_total(color) == g0.color_total(color)
    &&& g.node_seq().len() + merged_away(components) == g0.node_seq().len()
    &&& forall|i: int, j: int|
        is_member(components, i, j) && components[i].len() >= 2 ==> p.contains_key(
            #[trigger] components[i][j] as u64,
        ) && p[components[i][j] as u64] == components[i][0] as u64
    &&& forall|key: u64|
        #![trigger p.contains_key(key)]
        #![trigger p[key]]
        (forall|i: int, j: int|
            is_member(components, i, j) && components[i].len() >= 2
                ==> #[trigger] components[i][j] as u64 != key) ==> (p.contains_key(key)
            == p0.contains_key(key)) && (p0.contains_key(key) ==> p[key] == p0[key])
    &&& forall|i: int, j: int|
        is_member(components, i, j) ==> find(p, #[trigger] components[i][j] as u64)
            == components[i][0] as u64
    &&& forall|x: u64|
        g0.has_node(x) && (forall|i: int, j: int|
            is_member(components, i, j) ==> #[trigger] components[i][j] as u64 != x)
            ==> #[trigger] find(p, x) == x
    &&& forall|x: u64| g0.has_node(x) ==> g.has_node(#[trigger] find(p, x))
    &&& forall|y: u64| g.has_node(y) ==> g0.has_node(y)
    &&& forall|x: u64| #[trigger] find(p, x) == find(p, find(p0, x))
    &&& forall|y: u64| is_root(p0, y) && !g0.has_node(y) ==> is_root(p, y)
    &&& forall|x: u64, y: u64, color: EdgeColor|
        #[trigger] g.count(x, y, color) == between_images(
            g0.edge_seq(),
            find_map(p),
            x,
            y,
            color,
        )
}

/// Merges every component into its first vertex, and records in `proj_map`
/// which vertex each vertex was merged into.
///
/// Afterwards every member of a component is stood for by the first
/// vertex of its component, every other vertex by itself, and every edge
/// is still there, between the representatives of its endpoints.
pub fn merge_components(
    biedged: &mut BiedgedGraph,
    components: Vec<Vec<usize>>,
    proj_map: &mut BTreeMap<u64, u64>,
)
    requires
        old(biedged).wf(),
        fits(old(proj_map)@, *old(biedged)),
        mergeable(*old(biedged), lists(components@)),
    ensures
        merged_by(
            *old(biedged),
            old(proj_map)@,
            lists(components@),
            *final(biedged),
            final(proj_map)@,
        ),
{
    let ghost g0 = *biedged;
    let ghost p0 = proj_map@;
    let ghost all = lists(components@);
    proof {
        lemma_start(g0, p0);
        lemma_merging_starts(g0, all, p0);
        assert(entries_up_to(p0, all, 0, 0, p0)) by {
            reveal(entries_up_to);
        }
        assert(all.take(0) =~= Seq::<Seq<usize>>::empty());
    }
    let mut i: usize = 0;
    while i < components.len()
        invariant
            i <= components.len(),
            all == lists(components@),
            g0.wf(),
            biedged.wf(),
            mergeable(g0, all),
            entries_up_to(p0, all, i as int, 0, proj_map@),
            biedged.node_seq().len() + merged_away(all.take(i as int)) == g0.node_seq().len(),
            forall|color: EdgeColor| biedged.color_total(color) == g0.color_total(color),
            represents(g0, p0, *biedged, proj_map@),
            is_quotient(*biedged, g0.edge_seq(), proj_map@, EdgeColor::Black, true),
            is_quotient(*biedged, g0.edge_seq(), proj_map@, EdgeColor::Gray, true),
            merged_up_to(g0, all, i as int, 0, *biedged, proj_map@),
        decreases components.len() - i,
    {
        let comp = &components[i];
        proof {
            assert(all[i as int] == comp@);
            assert(comp@.len() > 0);
            lemma_merging_moves_on(g0, all, i as int, 0, *biedged, proj_map@);
            lemma_entries_move_on(p0, all, i as int, 0, proj_map@);
        }
        let head = comp[0] as u64;
        let mut j: usize = 1;
        while j < comp.len()
            invariant
                1 <= j <= comp.len(),
                i < components.len(),
                all == lists(components@),
                all[i as int] == comp@,
                head == comp@[0] as u64,
                g0.wf(),
                biedged.wf(),
                mergeable(g0, all),
                entries_up_to(p0, all, i as int, j as int, proj_map@),
                biedged.node_seq().len() + merged_away(all.take(i as int)) + j - 1
                    == g0.node_seq().len(),
                forall|color: EdgeColor| biedged.color_total(color) == g0.color_total(color),
                represents(g0, p0, *biedged, proj_map@),
                is_quotient(*biedged, g0.edge_seq(), proj_map@, EdgeColor::Black, true),
                is_quotient(*biedged, g0.edge_seq(), proj_map@, EdgeColor::Gray, true),
                merged_up_to(g0, all, i as int, j as int, *biedged, proj_map@),
            decreases comp.len() - j,
        {
            let other = comp[j] as u64;
            let ghost g = *biedged;
            let ghost p = proj_map@;
            proof {
                reveal(merged_up_to);
                assert(is_member(all, i as int, j as int));
                assert(is_member(all, i as int, 0));
                assert(comes_before(i as int, 0, i as int, j as int));
                assert(!comes_before(i as int, j as int, i as int, j as int));
                assert(all[i as int][j as int] as u64 == other);
                assert(all[i as int][0] as u64 == head);
                assert(g.has_node(head) && g.has_node(other));
                assert(all[i as int][0] != all[i as int][j as int]);
            }
            let kept = biedged.merge_vertices(head, other);
            proj_map.insert(head, head);
            proj_map.insert(other, head);
            proof {
                let q = proj_map@;
                assert(q =~= link(p, head, other));
                assert(merged_edges(g, *biedged, head, other, None));
                lemma_merge_represents(g0, p0, g, p, *biedged, head, other);
                lemma_merge_keeps_quotient(
                    g0.edge_seq(),
                    g,
                    *biedged,
                    p,
                    q,
                    head,
                    other,
                    None,
                    EdgeColor::Black,
                    true,
                );
                lemma_merge_keeps_quotient(
                    g0.edge_seq(),
                    g,
                    *biedged,
                    p,
                    q,
                    head,
                    other,
                    None,
                    EdgeColor::Gray,
                    true,
                );
                lemma_merging_step(g0, all, i as int, j as int, g, p, *biedged, q);
                lemma_entries_step(g0, p0, all, i as int, j as int, p, q);
            }
            j += 1;
        }
        proof {
            lemma_merging_moves_on(g0, all, i as int, j as int, *biedged, proj_map@);
            lemma_entries_move_on(p0, all, i as int, j as int, proj_map@);
            assert(all.take(i as int + 1).drop_last() =~= all.take(i as int));
            assert(all.take(i as int + 1).last() == all[i as int]);
        }
        i += 1;
    }
    proof {
        reveal(represents);
        reveal(is_quotient);
        reveal(merged_up_to);
        reveal(entries_up_to);
        assert(all.take(i as int) =~= all);
        assert forall|k: int, l: int|
            (is_member(all, k, l) && all[k].len() >= 2) == is_written(all, k, l, i as int, 0) by {}
        assert forall|k: int, l: int| is_member(all, k, l) implies find(
            proj_map@,
            #[trigger] all[k][l] as u64,
        ) == all[k][0] as u64 by {
            assert(comes_before(k, l, i as int, 0));
        }
        assert forall|x: u64, y: u64, color: EdgeColor| #[trigger]
            biedged.count(x, y, color) == between_images(
                g0.edge_seq(),
                find_map(proj_map@),
                x,
                y,
                color,
            ) by {
            if color == EdgeColor::Black {
            } else {
                assert(color == EdgeColor::Gray);
            }
        }
    }
}

/// The cycles of the black edges, each as the list of its edges: a loop is
/// one edge, and the edges of a cycle lead from its first vertex round to
/// its first vertex.
pub fn find_loops(biedged: &BiedgedGraph) -> (loops: Vec<Vec<(u64, u64)>>)
    requires
        biedged.wf(),
    ensures
        loop_lists(loops@) == all_loops(*biedged),
        forall|k: int| 0 <= k < loops@.len() ==> is_loop(*biedged, (#[trigger] loops@[k])@),
{
    let cycles = find_cycles(biedged);
    let mut loops: Vec<Vec<(u64, u64)>> = Vec::new();
    let mut k: usize = 0;
    while k < cycles.len()
        invariant
            k <= cycles.len(),
            forall|i: int| 0 <= i < cycles@.len() ==> crate::cycles::is_cycle(
                *biedged,
                (#[trigger] cycles@[i])@,
            ),
            loops@.len() == k,
            forall|i: int| 0 <= i < k ==> (#[trigger] loops@[i])@ == around(cycles@[i]@),
            forall|i: int| 0 <= i < loops@.len() ==> is_loop(*biedged, (#[trigger] loops@[i])@),
        decreases cycles.len() - k,
    {
        let edges = edges_around(&cycles[k]);
        proof {
            lemma_around_is_loop(*biedged, cycles@[k as int]@);
        }
        let ghost had = loops@;
        loops.push(edges);
        proof {
            assert forall|i: int| 0 <= i < loops@.len() implies is_loop(
                *biedged,
                (#[trigger] loops@[i])@,
            ) && loops@[i]@ == around(cycles@[i]@) by {
                if i < had.len() {
                    assert(loops@[i] == had[i]);
                }
            }
        }
        k += 1;
    }
    proof {
        let mine = loop_lists(loops@);
        let theirs = all_loops(*biedged);
        assert(cycle_lists(cycles@) == all_cycles(*biedged));
        assert(mine.len() == theirs.len());
        assert forall|i: int| 0 <= i < mine.len() implies mine[i] == theirs[i] by {
            assert(cycle_lists(cycles@)[i] == cycles@[i]@);
        }
        assert(mine =~= theirs);
    }
    loops
}

/// Every edge of the loops before the place `(k, i)` has both endpoints
/// under one representative.
#[verifier::opaque]
pub open spec fn closed_up_to(
    loops: Seq<Seq<(u64, u64)>>,
    k: int,
    i: int,
    p: Map<u64, u64>,
) -> bool {
    forall|a: int, b: int|
        is_loop_edge(loops, a, b) && comes_before(a, b, k, i) ==> find(
            p,
            (#[trigger] loops[a][b]).0,
        ) == find(p, loops[a][b].1)
}

proof fn lemma_closing_moves_on(loops: Seq<Seq<(u64, u64)>>, k: int, p: Map<u64, u64>)
    requires
        0 <= k < loops.len(),
        closed_up_to(loops, k, loops[k].len() as int, p),
    ensures
        closed_up_to(loops, k + 1, 0, p),
{
    reveal(closed_up_to);
    assert forall|a: int, b: int|
        is_loop_edge(loops, a, b) && comes_before(a, b, k + 1, 0) implies find(
        p,
        (#[trigger] loops[a][b]).0,
    ) == find(p, loops[a][b].1) by {
        assert(comes_before(a, b, k, loops[k].len() as int));
    }
}

/// What was under one representative in `p` is under one in `q`.
pub open spec fn keeps_together(p: Map<u64, u64>, q: Map<u64, u64>) -> bool {
    forall|x: u64, y: u64|
        find(p, x) == find(p, y) ==> #[trigger] find(q, x) == #[trigger] find(q, y)
}

proof fn lemma_closing_step(
    loops: Seq<Seq<(u64, u64)>>,
    k: int,
    i: int,
    p: Map<u64, u64>,
    q: Map<u64, u64>,
)
    requires
        is_loop_edge(loops, k, i),
        closed_up_to(loops, k, i, p),
        keeps_together(p, q),
        find(q, loops[k][i].0) == find(q, loops[k][i].1),
    ensures
        closed_up_to(loops, k, i + 1, q),
{
    reveal(closed_up_to);
    assert forall|a: int, b: int|
        is_loop_edge(loops, a, b) && comes_before(a, b, k, i + 1) implies find(
        q,
        (#[trigger] loops[a][b]).0,
    ) == find(q, loops[a][b].1) by {
        if comes_before(a, b, k, i) {
            assert(find(p, loops[a][b].0) == find(p, loops[a][b].1));
        } else {
            assert(a == k && b == i);
        }
    }
}

/// A vertex of `g0` has a representative among the vertices of a graph
/// that represents `g0`.
proof fn lemma_represented(
    g0: BiedgedGraph,
    p0: Map<u64, u64>,
    g: BiedgedGraph,
    p: Map<u64, u64>,
    a: u64,
)
    requires
        represents(g0, p0, g, p),
        g0.has_node(a),
    ensures
        reaches_root(p, a),
        g.has_node(find(p, a)),
{
    reveal(represents);
}

/// A merge keeps together what was together, and brings the two merged
/// vertices together.
proof fn lemma_moved_together(
    p: Map<u64, u64>,
    q: Map<u64, u64>,
    kept: u64,
    dropped: u64,
    a: u64,
    b: u64,
)
    requires
        moved(p, q, kept, dropped),
        find(p, a) == kept,
        find(p, b) == dropped,
    ensures
        keeps_together(p, q),
        find(q, a) == find(q, b),
{
    assert forall|x: u64, y: u64| find(p, x) == find(p, y) implies #[trigger] find(q, x)
        == #[trigger] find(q, y) by {}
}

/// The relation "one of the loops has an edge between the two".
pub open spec fn on_loops(loops: Seq<Seq<(u64, u64)>>) -> spec_fn(u64, u64) -> bool {
    |a: u64, b: u64| on_loop(loops, a, b)
}

/// A walk along edges of the loops leads from `a` to `b`.
pub open spec fn linked(loops: Seq<Seq<(u64, u64)>>, a: u64, b: u64) -> bool {
    reachable(on_loops(loops), a, b)
}

proof fn lemma_on_loops_symmetric(loops: Seq<Seq<(u64, u64)>>)
    ensures
        symmetric(on_loops(loops)),
{
    let step = on_loops(loops);
    assert forall|x: u64, y: u64| #[trigger] step(x, y) implies step(y, x) by {
        let (k, i) = choose|k: int, i: int|
            is_loop_edge(loops, k, i) && same_pair((#[trigger] loops[k][i]).0, loops[k][i].1, x, y);
        assert(same_pair(loops[k][i].0, loops[k][i].1, y, x));
    }
}

/// Every vertex of `g0` is joined to what stands for it by a walk along
/// edges of the loops.
#[verifier::opaque]
pub open spec fn stays_linked(
    g0: BiedgedGraph,
    loops: Seq<Seq<(u64, u64)>>,
    p: Map<u64, u64>,
) -> bool {
    forall|x: u64| g0.has_node(x) ==> linked(loops, x, #[trigger] find(p, x))
}

/// `k` is an end of an edge of the loops.
pub open spec fn is_loop_end(loops: Seq<Seq<(u64, u64)>>, k: u64) -> bool {
    exists|y: u64| #[trigger] on_loop(loops, k, y)
}

/// What stands for an end of an edge of the loops is an end of an edge of
/// the loops.
proof fn lemma_stands_for_loop_end(
    g0: BiedgedGraph,
    loops: Seq<Seq<(u64, u64)>>,
    p: Map<u64, u64>,
    a: u64,
    b: u64,
)
    requires
        stays_linked(g0, loops, p),
        g0.has_node(a),
        on_loop(loops, a, b),
    ensures
        is_loop_end(loops, find(p, a)),
{
    reveal(stays_linked);
    let step = on_loops(loops);
    let r = find(p, a);
    if r != a {
        assert(linked(loops, a, r));
        lemma_on_loops_symmetric(loops);
        let y = lemma_reachable_last_step(step, a, r);
        assert(step(y, r));
        assert(step(r, y));
        assert(on_loop(loops, r, y));
    }
}

/// The entries of the map `p` that the map `p0` did not have are those of
/// vertices of `g0` that were merged along edges of the loops: every entry
/// of `p0` is still there, and an entry that is new or changed has as its
/// key a vertex of `g0` that is an end of an edge of the loops, and as its
/// value a vertex that a walk along edges of the loops joins to the key.
#[verifier::opaque]
pub open spec fn entries_linked(
    g0: BiedgedGraph,
    loops: Seq<Seq<(u64, u64)>>,
    p0: Map<u64, u64>,
    p: Map<u64, u64>,
) -> bool {
    &&& forall|k: u64| p0.contains_key(k) ==> #[trigger] p.contains_key(k)
    &&& forall|k: u64|
        #[trigger] p.contains_key(k) && !(p0.contains_key(k) && p0[k] == p[k]) ==> g0.has_node(k)
            && is_loop_end(loops, k) && linked(loops, k, p[k])
}

/// Writing the entries of two merged vertices.
proof fn lemma_entries_linked_step(
    g0: BiedgedGraph,
    loops: Seq<Seq<(u64, u64)>>,
    p0: Map<u64, u64>,
    p: Map<u64, u64>,
    q: Map<u64, u64>,
    kept: u64,
    dropped: u64,
)
    requires
        entries_linked(g0, loops, p0, p),
        q == p.insert(kept, kept).insert(dropped, kept),
        g0.has_node(kept),
        g0.has_node(dropped),
        is_loop_end(loops, kept),
        is_loop_end(loops, dropped),
        linked(loops, dropped, kept),
    ensures
        entries_linked(g0, loops, p0, q),
{
    reveal(entries_linked);
    lemma_reachable_refl(on_loops(loops), kept);
    assert forall|k: u64| p0.contains_key(k) implies #[trigger] q.contains_key(k) by {
        assert(p.contains_key(k));
    }
    assert forall|k: u64|
        #[trigger] q.contains_key(k) && !(p0.contains_key(k) && p0[k] == q[k]) implies g0.has_node(
        k,
    ) && is_loop_end(loops, k) && linked(loops, k, q[k]) by {
        if k != kept && k != dropped {
            assert(p.contains_key(k));
        }
    }
}

/// Merging the representatives of the two ends of an edge of the loops
/// keeps every vertex linked with what stands for it.
proof fn lemma_merge_stays_linked(
    g0: BiedgedGraph,
    loops: Seq<Seq<(u64, u64)>>,
    p: Map<u64, u64>,
    q: Map<u64, u64>,
    a: u64,
    b: u64,
    kept: u64,
    dropped: u64,
)
    requires
        stays_linked(g0, loops, p),
        g0.has_node(a),
        g0.has_node(b),
        on_loop(loops, a, b),
        find(p, a) == kept,
        find(p, b) == dropped,
        moved(p, q, kept, dropped),
    ensures
        stays_linked(g0, loops, q),
        linked(loops, dropped, kept),
{
    reveal(stays_linked);
    let step = on_loops(loops);
    lemma_on_loops_symmetric(loops);
    assert(linked(loops, a, find(p, a)));
    assert(linked(loops, b, find(p, b)));
    assert(step(a, b));
    lemma_reachable_step(step, a, b);
    lemma_reachable_sym(step, b, dropped);
    lemma_reachable_sym(step, a, b);
    lemma_reachable_trans(step, dropped, b, a);
    lemma_reachable_trans(step, dropped, a, kept);
    assert forall|x: u64| g0.has_node(x) implies linked(loops, x, #[trigger] find(q, x)) by {
        assert(linked(loops, x, find(p, x)));
        if find(p, x) == dropped {
            lemma_reachable_trans(step, x, dropped, kept);
        }
    }
}

/// Merges the representatives of `a` and `b`, the two ends of an edge of
/// the loops, where they differ.
fn merge_between(
    biedged: &mut BiedgedGraph,
    proj_map: &mut BTreeMap<u64, u64>,
    a: u64,
    b: u64,
    Ghost(g0): Ghost<BiedgedGraph>,
    Ghost(p0): Ghost<Map<u64, u64>>,
    Ghost(loops): Ghost<Seq<Seq<(u64, u64)>>>,
)
    requires
        g0.wf(),
        old(biedged).wf(),
        represents(g0, p0, *old(biedged), old(proj_map)@),
        is_quotient(*old(biedged), g0.edge_seq(), old(proj_map)@, EdgeColor::Black, true),
        is_quotient(*old(biedged), g0.edge_seq(), old(proj_map)@, EdgeColor::Gray, true),
        stays_linked(g0, loops, old(proj_map)@),
        entries_linked(g0, loops, p0, old(proj_map)@),
        g0.has_node(a),
        g0.has_node(b),
        on_loop(loops, a, b),
    ensures
        final(biedged).wf(),
        entries_linked(g0, loops, p0, final(proj_map)@),
        represents(g0, p0, *final(biedged), final(proj_map)@),
        is_quotient(*final(biedged), g0.edge_seq(), final(proj_map)@, EdgeColor::Black, true),
        is_quotient(*final(biedged), g0.edge_seq(), final(proj_map)@, EdgeColor::Gray, true),
        final(biedged).color_total(EdgeColor::Black) == old(biedged).color_total(EdgeColor::Black),
        final(biedged).color_total(EdgeColor::Gray) == old(biedged).color_total(EdgeColor::Gray),
        stays_linked(g0, loops, final(proj_map)@),
        keeps_together(old(proj_map)@, final(proj_map)@),
        find(final(proj_map)@, a) == find(final(proj_map)@, b),
{
    let ghost g = *biedged;
    let ghost p = proj_map@;
    proof {
        lemma_represented(g0, p0, g, p, a);
        lemma_represented(g0, p0, g, p, b);
        lemma_on_loops_symmetric(loops);
        assert(on_loops(loops)(a, b));
        assert(on_loops(loops)(b, a));
        lemma_stands_for_loop_end(g0, loops, p, a, b);
        lemma_stands_for_loop_end(g0, loops, p, b, a);
    }
    let kept = find_projection(proj_map, a);
    let dropped = find_projection(proj_map, b);
    if kept != dropped {
        let merged = biedged.merge_vertices(kept, dropped);
        proj_map.insert(kept, kept);
        proj_map.insert(dropped, kept);
        proof {
            let q = proj_map@;
            assert(q =~= link(p, kept, dropped));
            assert(merged_edges(g, *biedged, kept, dropped, None));
            assert(biedged.color_total(EdgeColor::Black) == g.color_total(EdgeColor::Black));
            assert(biedged.color_total(EdgeColor::Gray) == g.color_total(EdgeColor::Gray));
            lemma_merge_represents(g0, p0, g, p, *biedged, kept, dropped);
            lemma_merge_keeps_quotient(
                g0.edge_seq(),
                g,
                *biedged,
                p,
                q,
                kept,
                dropped,
                None,
                EdgeColor::Black,
                true,
            );
            lemma_merge_keeps_quotient(
                g0.edge_seq(),
                g,
                *biedged,
                p,
                q,
                kept,
                dropped,
                None,
                EdgeColor::Gray,
                true,
            );
            lemma_moved_together(p, q, kept, dropped, a, b);
            lemma_merge_stays_linked(g0, loops, p, q, a, b, kept, dropped);
            assert(g0.has_node(kept) && g0.has_node(dropped)) by {
                reveal(represents);
            }
            lemma_entries_linked_step(g0, loops, p0, p, q, kept, dropped);
        }
    } else {
        proof {
            assert(keeps_together(p, p));
        }
    }
}

/// The first ends of a list of edges.
pub open spec fn firsts(edges: Seq<(u64, u64)>) -> Seq<u64> {
    edges.map_values(|e: (u64, u64)| e.0)
}

/// The first end of every edge of the loops, in their order.
pub open spec fn loop_ends(loops: Seq<Seq<(u64, u64)>>) -> Seq<u64>
    decreases loops.len(),
{
    if loops.len() == 0 {
        Seq::empty()
    } else {
        loop_ends(loops.drop_last()) + firsts(loops.last())
    }
}

/// How many of the ends are stood for by `x`.
pub open spec fn ends_at(ends: Seq<u64>, p: Map<u64, u64>, x: u64) -> nat
    decreases ends.len(),
{
    if ends.len() == 0 {
        0
    } else {
        ends_at(ends.drop_last(), p, x) + (if find(p, ends.last()) == x {
            1nat
        } else {
            0nat
        })
    }
}

/// How many black loops are taken away at the vertex `x`: one for each edge
/// of the loops whose ends `x` stands for, as far as the quotient of `e0`
/// has loops there.
pub open spec fn contracted_at(
    e0: Seq<BiedgedEdge>,
    p: Map<u64, u64>,
    ends: Seq<u64>,
    x: u64,
) -> nat {
    let there = between_images(e0, find_map(p), x, x, EdgeColor::Black);
    if ends_at(ends, p, x) < there {
        ends_at(ends, p, x)
    } else {
        there
    }
}

/// How many black loops are taken away at all of the vertices.
pub open spec fn contracted_in(
    nodes: Seq<u64>,
    e0: Seq<BiedgedEdge>,
    p: Map<u64, u64>,
    ends: Seq<u64>,
) -> nat
    decreases nodes.len(),
{
    if nodes.len() == 0 {
        0
    } else {
        contracted_in(nodes.drop_last(), e0, p, ends) + contracted_at(e0, p, ends, nodes.last())
    }
}

/// One more end changes what is taken away at one vertex only.
proof fn lemma_contracted_in_step(
    nodes: Seq<u64>,
    e0: Seq<BiedgedEdge>,
    p: Map<u64, u64>,
    ends: Seq<u64>,
    more: Seq<u64>,
    r: u64,
    extra: nat,
)
    requires
        ascending(nodes),
        forall|x: u64| x != r ==> #[trigger] contracted_at(e0, p, more, x) == contracted_at(e0, p, ends, x),
        contracted_at(e0, p, more, r) == contracted_at(e0, p, ends, r) + extra,
    ensures
        contracted_in(nodes, e0, p, more) == contracted_in(nodes, e0, p, ends) + (if nodes.contains(
            r,
        ) {
            extra
        } else {
            0nat
        }),
    decreases nodes.len(),
{
    if nodes.len() > 0 {
        let front = nodes.drop_last();
        assert forall|i: int, j: int| 0 <= i < j < front.len() implies front[i] < front[j] by {
            assert(front[i] == nodes[i] && front[j] == nodes[j]);
        }
        lemma_contracted_in_step(front, e0, p, ends, more, r, extra);
        if front.contains(r) {
            let i = choose|i: int| 0 <= i < front.len() && front[i] == r;
            assert(nodes[i] == r);
            assert(nodes[i] < nodes[nodes.len() - 1]);
            assert(nodes.contains(r));
        } else if nodes.last() == r {
            assert(nodes[nodes.len() - 1] == r);
            assert(nodes.contains(r));
        } else {
            if nodes.contains(r) {
                let i = choose|i: int| 0 <= i < nodes.len() && nodes[i] == r;
                assert(front[i] == r);
            }
        }
    }
}

/// The first end of every edge of the loops, in their order.
fn first_ends(loops: &Vec<Vec<(u64, u64)>>) -> (ends: Vec<u64>)
    ensures
        ends@ == loop_ends(loop_lists(loops@)),
{
    let ghost all = loop_lists(loops@);
    let mut ends: Vec<u64> = Vec::new();
    let mut k: usize = 0;
    proof {
        assert(all.take(0) =~= Seq::<Seq<(u64, u64)>>::empty());
    }
    while k < loops.len()
        invariant
            k <= loops.len(),
            all == loop_lists(loops@),
            ends@ == loop_ends(all.take(k as int)),
        decreases loops.len() - k,
    {
        let edges = &loops[k];
        let ghost before = ends@;
        let mut i: usize = 0;
        proof {
            assert(firsts(edges@.take(0)) =~= Seq::<u64>::empty());
            assert(before + firsts(edges@.take(0)) =~= before);
        }
        while i < edges.len()
            invariant
                i <= edges.len(),
                ends@ == before + firsts(edges@.take(i as int)),
            decreases edges.len() - i,
        {
            ends.push(edges[i].0);
            i += 1;
            proof {
                assert(firsts(edges@.take(i as int)) =~= firsts(edges@.take(i as int - 1)).push(
                    edges@[i as int - 1].0,
                ));
                assert(ends@ =~= before + firsts(edges@.take(i as int)));
            }
        }
        proof {
            assert(edges@.take(i as int) =~= edges@);
            assert(all[k as int] == edges@);
            assert(all.take(k as int + 1).drop_last() =~= all.take(k as int));
            assert(all.take(k as int + 1).last() == all[k as int]);
        }
        k += 1;
    }
    proof {
        assert(all.take(k as int) =~= all);
    }
    ends
}

/// Every end of an edge of the loops is a vertex of the graph.
proof fn lemma_loop_ends_are_nodes(g0: BiedgedGraph, loops: Seq<Seq<(u64, u64)>>, t: int)
    requires
        g0.wf(),
        forall|k: int| 0 <= k < loops.len() ==> is_loop(g0, #[trigger] loops[k]),
        0 <= t < loop_ends(loops).len(),
    ensures
        g0.has_node(loop_ends(loops)[t]),
    decreases loops.len(),
{
    if loops.len() > 0 {
        let front = loops.drop_last();
        let m = loop_ends(front).len();
        if t < m {
            assert forall|k: int| 0 <= k < front.len() implies is_loop(g0, #[trigger] front[k]) by {
                assert(front[k] == loops[k]);
            }
            lemma_loop_ends_are_nodes(g0, front, t);
        } else {
            let last = loops[loops.len() - 1];
            assert(is_loop(g0, last));
            let e = last[t - m];
            assert(loop_ends(loops)[t] == e.0);
            assert(g0.count(e.0, e.1, EdgeColor::Black) > 0);
            let at = lemma_edge_has_record(g0.edge_seq(), e.0, e.1, EdgeColor::Black);
        }
    }
}

/// The graph `g` is the graph `gm`, the quotient of `e0` by `p`, with the
/// black loops taken away that the ends stand for.
#[verifier::opaque]
pub open spec fn loops_taken(
    gm: BiedgedGraph,
    e0: Seq<BiedgedEdge>,
    p: Map<u64, u64>,
    ends: Seq<u64>,
    g: BiedgedGraph,
) -> bool {
    &&& g.node_seq() == gm.node_seq()
    &&& forall|x: u64, y: u64, c: EdgeColor|
        #[trigger] g.count(x, y, c) == gm.count(x, y, c) - (if c == EdgeColor::Black && x == y {
            contracted_at(e0, p, ends, x) as int
        } else {
            0int
        })
    &&& g.color_total(EdgeColor::Gray) == gm.color_total(EdgeColor::Gray)
    &&& g.color_total(EdgeColor::Black) + contracted_in(gm.node_seq(), e0, p, ends)
        == gm.color_total(EdgeColor::Black)
}

proof fn lemma_nothing_taken(gm: BiedgedGraph, e0: Seq<BiedgedEdge>, p: Map<u64, u64>)
    ensures
        loops_taken(gm, e0, p, Seq::<u64>::empty(), gm),
{
    reveal(loops_taken);
    let none = Seq::<u64>::empty();
    assert forall|x: u64| #[trigger] contracted_at(e0, p, none, x) == 0 by {}
    lemma_contracted_none(gm.node_seq(), e0, p);
}

proof fn lemma_contracted_none(nodes: Seq<u64>, e0: Seq<BiedgedEdge>, p: Map<u64, u64>)
    ensures
        contracted_in(nodes, e0, p, Seq::<u64>::empty()) == 0,
    decreases nodes.len(),
{
    if nodes.len() > 0 {
        lemma_contracted_none(nodes.drop_last(), e0, p);
    }
}

/// Taking a black loop away at the vertex that stands for the next end, if
/// it has one.
proof fn lemma_take_step(
    gm: BiedgedGraph,
    e0: Seq<BiedgedEdge>,
    p: Map<u64, u64>,
    ends: Seq<u64>,
    t: int,
    g: BiedgedGraph,
    g2: BiedgedGraph,
    r: u64,
    taken: bool,
)
    requires
        gm.wf(),
        is_quotient(gm, e0, p, EdgeColor::Black, true),
        loops_taken(gm, e0, p, ends.take(t), g),
        0 <= t < ends.len(),
        r == find(p, ends[t]),
        gm.has_node(r),
        taken ==> {
            &&& g.count(r, r, EdgeColor::Black) > 0
            &&& merged_edges(g, g2, r, r, Some(EdgeColor::Black))
            &&& g2.node_seq() == g.node_seq()
            &&& g2.color_total(EdgeColor::Black) == g.color_total(EdgeColor::Black) - 1
            &&& g2.color_total(EdgeColor::Gray) == g.color_total(EdgeColor::Gray)
        },
        !taken ==> g.count(r, r, EdgeColor::Black) == 0 && g2 == g,
    ensures
        loops_taken(gm, e0, p, ends.take(t + 1), g2),
{
    reveal(loops_taken);
    reveal(is_quotient);
    let before = ends.take(t);
    let after = ends.take(t + 1);
    assert(after.drop_last() =~= before);
    assert(after.last() == ends[t]);
    assert forall|x: u64| #[trigger] ends_at(after, p, x) == ends_at(before, p, x) + (if x == r {
        1nat
    } else {
        0nat
    }) by {}
    let there = between_images(e0, find_map(p), r, r, EdgeColor::Black);
    assert(gm.count(r, r, EdgeColor::Black) == there);
    assert(g.count(r, r, EdgeColor::Black) == there - contracted_at(e0, p, before, r));
    let extra: nat = if taken {
        1
    } else {
        0
    };
    assert(contracted_at(e0, p, after, r) == contracted_at(e0, p, before, r) + extra);
    assert forall|x: u64| x != r implies #[trigger] contracted_at(e0, p, after, x)
        == contracted_at(e0, p, before, x) by {
        assert(ends_at(after, p, x) == ends_at(before, p, x));
    }
    lemma_contracted_in_step(gm.node_seq(), e0, p, before, after, r, extra);
    let e = g.edge_seq();
    assert forall|x: u64, y: u64, c: EdgeColor| #[trigger]
        g2.count(x, y, c) == gm.count(x, y, c) - (if c == EdgeColor::Black && x == y {
            contracted_at(e0, p, after, x) as int
        } else {
            0int
        }) by {
        assert(g.count(x, y, c) == gm.count(x, y, c) - (if c == EdgeColor::Black && x == y {
            contracted_at(e0, p, before, x) as int
        } else {
            0int
        }));
        if taken {
            lemma_images_of_fixed(e, merge_map(r, r), x, y, c);
            assert(g.count(x, y, c) == between(e, x, y, c));
        }
        if c == EdgeColor::Black && x == y && x != r {
            assert(contracted_at(e0, p, after, x) == contracted_at(e0, p, before, x));
        }
    }
}

/// Two keys have one representative exactly if a walk along edges of the
/// loops joins what stood for them.
proof fn lemma_linked_iff(
    g0: BiedgedGraph,
    p0: Map<u64, u64>,
    loops: Seq<Seq<(u64, u64)>>,
    g: BiedgedGraph,
    p: Map<u64, u64>,
    x: u64,
    y: u64,
)
    requires
        g0.wf(),
        fits(p0, g0),
        forall|k: int| 0 <= k < loops.len() ==> is_loop(g0, #[trigger] loops[k]),
        represents(g0, p0, g, p),
        stays_linked(g0, loops, p),
        closed_up_to(loops, loops.len() as int, 0, p),
    ensures
        (find(p, x) == find(p, y)) == linked(loops, find(p0, x), find(p0, y)),
{
    reveal(represents);
    reveal(stays_linked);
    reveal(closed_up_to);
    let step = on_loops(loops);
    let fp = find_map(p);
    let r = find(p0, x);
    let s = find(p0, y);
    assert(reaches_root(p0, x) && reaches_root(p0, y));
    assert(is_root(p0, r) && is_root(p0, s));
    assert(find(p, x) == find(p, r));
    assert(find(p, y) == find(p, s));
    lemma_on_loops_symmetric(loops);
    assert forall|a: u64, b: u64| #[trigger] step(a, b) implies fp(a) == fp(b) && g0.has_node(a)
        && g0.has_node(b) by {
        let (k, i) = choose|k: int, i: int|
            is_loop_edge(loops, k, i) && same_pair((#[trigger] loops[k][i]).0, loops[k][i].1, a, b);
        assert(comes_before(k, i, loops.len() as int, 0));
        assert(find(p, loops[k][i].0) == find(p, loops[k][i].1));
        assert(fp(a) == find(p, a) && fp(b) == find(p, b));
        assert(is_loop(g0, loops[k]));
        assert(g0.count(loops[k][i].0, loops[k][i].1, EdgeColor::Black) > 0);
        let at = lemma_edge_has_record(
            g0.edge_seq(),
            loops[k][i].0,
            loops[k][i].1,
            EdgeColor::Black,
        );
    }
    if linked(loops, r, s) {
        assert forall|a: u64, b: u64| #[trigger] step(a, b) implies fp(a) == fp(b) by {}
        lemma_reachable_one_image(step, fp, r, s);
        assert(fp(r) == find(p, r) && fp(s) == find(p, s));
    }
    if find(p, r) == find(p, s) {
        if g0.has_node(r) && g0.has_node(s) {
            assert(linked(loops, r, find(p, r)));
            assert(linked(loops, s, find(p, s)));
            lemma_reachable_sym(step, s, find(p, s));
            lemma_reachable_trans(step, r, find(p, r), s);
        } else if !g0.has_node(r) && !g0.has_node(s) {
            assert(is_root(p, r) && is_root(p, s));
            lemma_find_of_root(p, r);
            lemma_find_of_root(p, s);
            lemma_reachable_refl(step, r);
        } else if !g0.has_node(r) {
            assert(is_root(p, r));
            lemma_find_of_root(p, r);
            assert(g.has_node(find(p, s)));
        } else {
            assert(is_root(p, s));
            lemma_find_of_root(p, s);
            assert(g.has_node(find(p, r)));
        }
    }
}

/// Contracts the edges of every cycle of black edges, and records in
/// `proj_map` which vertex each vertex was merged into. Returns the cycles
/// that it contracted, each as the list of its edges.
///
/// The two ends of every edge of a cycle are merged, so that two vertices
/// have one representative exactly if a walk along edges of the cycles
/// joins them. Every edge that is left lies between the representatives of
/// its ends. At every vertex one black loop is taken away for each edge of
/// a cycle whose ends the vertex stands for, as far as it has loops; no
/// other edge is taken away.
pub fn contract_loops(biedged: &mut BiedgedGraph, proj_map: &mut BTreeMap<u64, u64>) -> (loops: Vec<
    Vec<(u64, u64)>,
>)
    requires
        old(biedged).wf(),
        fits(old(proj_map)@, *old(biedged)),
    ensures
        final(biedged).wf(),
        fits(final(proj_map)@, *final(biedged)),
        loop_lists(loops@) == all_loops(*old(biedged)),
        forall|k: int| 0 <= k < loops@.len() ==> is_loop(*old(biedged), (#[trigger] loops@[k])@),
        forall|x: u64, y: u64|
            (find(final(proj_map)@, x) == find(final(proj_map)@, y)) == #[trigger] linked(
                all_loops(*old(biedged)),
                find(old(proj_map)@, x),
                find(old(proj_map)@, y),
            ),
        forall|x: u64, y: u64, color: EdgeColor|
            #[trigger] final(biedged).count(x, y, color) == between_images(
                old(biedged).edge_seq(),
                find_map(final(proj_map)@),
                x,
                y,
                color,
            ) - (if color == EdgeColor::Black && x == y {
                contracted_at(
                    old(biedged).edge_seq(),
                    final(proj_map)@,
                    loop_ends(all_loops(*old(biedged))),
                    x,
                ) as int
            } else {
                0int
            }),
        final(biedged).color_total(EdgeColor::Gray) == old(biedged).color_total(EdgeColor::Gray),
        final(biedged).color_total(EdgeColor::Black) + contracted_in(
            final(biedged).node_seq(),
            old(biedged).edge_seq(),
            final(proj_map)@,
            loop_ends(all_loops(*old(biedged))),
        ) == old(biedged).color_total(EdgeColor::Black),
        forall|x: u64|
            old(biedged).has_node(x) ==> final(biedged).has_node(
                #[trigger] find(final(proj_map)@, x),
            ),
        forall|y: u64| final(biedged).has_node(y) ==> old(biedged).has_node(y),
        forall|x: u64|
            #[trigger] find(final(proj_map)@, x) == find(
                final(proj_map)@,
                find(old(proj_map)@, x),
            ),
        forall|y: u64|
            is_root(old(proj_map)@, y) && !old(biedged).has_node(y) ==> is_root(
                final(proj_map)@,
                y,
            ),
        forall|k: u64| old(proj_map)@.contains_key(k) ==> #[trigger] final(proj_map)@.contains_key(k),
        forall|k: u64|
            old(proj_map)@.contains_key(k) && !old(biedged).has_node(k) ==> #[trigger] final(proj_map)@[k] == old(proj_map)@[k],
        forall|k: u64|
            #[trigger] final(proj_map)@.contains_key(k) && !(old(proj_map)@.contains_key(k) && old(proj_map)@[k] == final(proj_map)@[k]) ==> {
                &&& old(biedged).has_node(k)
                &&& is_loop_end(all_loops(*old(biedged)), k)
                &&& linked(all_loops(*old(biedged)), k, final(proj_map)@[k])
            },
{
    let ghost g0 = *biedged;
    let ghost p0 = proj_map@;
    let ghost e0 = g0.edge_seq();
    let loops = find_loops(biedged);
    let ghost all = loop_lists(loops@);
    proof {
        lemma_start(g0, p0);
        assert(closed_up_to(all, 0, 0, p0)) by {
            reveal(closed_up_to);
        }
        assert(entries_linked(g0, all, p0, p0)) by {
            reveal(entries_linked);
        }
        assert(stays_linked(g0, all, p0)) by {
            reveal(stays_linked);
            assert forall|x: u64| g0.has_node(x) implies linked(all, x, #[trigger] find(p0, x)) by {
                lemma_find_of_root(p0, x);
                lemma_reachable_refl(on_loops(all), x);
            }
        }
        assert forall|a: int| 0 <= a < all.len() implies is_loop(g0, #[trigger] all[a]) by {
            assert(all[a] == loops@[a]@);
        }
    }
    let mut k: usize = 0;
    while k < loops.len()
        invariant
            k <= loops.len(),
            g0.wf(),
            biedged.wf(),
            all == loop_lists(loops@),
            forall|a: int| 0 <= a < all.len() ==> is_loop(g0, #[trigger] all[a]),
            biedged.color_total(EdgeColor::Gray) == g0.color_total(EdgeColor::Gray),
            biedged.color_total(EdgeColor::Black) == g0.color_total(EdgeColor::Black),
            represents(g0, p0, *biedged, proj_map@),
            is_quotient(*biedged, g0.edge_seq(), proj_map@, EdgeColor::Black, true),
            is_quotient(*biedged, g0.edge_seq(), proj_map@, EdgeColor::Gray, true),
            stays_linked(g0, all, proj_map@),
            entries_linked(g0, all, p0, proj_map@),
            closed_up_to(all, k as int, 0, proj_map@),
        decreases loops.len() - k,
    {
        let edges = &loops[k];
        let mut i: usize = 0;
        while i < edges.len()
            invariant
                i <= edges.len(),
                k < loops.len(),
                edges@ == loops@[k as int]@,
                g0.wf(),
                biedged.wf(),
                all == loop_lists(loops@),
                forall|a: int| 0 <= a < all.len() ==> is_loop(g0, #[trigger] all[a]),
                biedged.color_total(EdgeColor::Gray) == g0.color_total(EdgeColor::Gray),
                biedged.color_total(EdgeColor::Black) == g0.color_total(EdgeColor::Black),
                represents(g0, p0, *biedged, proj_map@),
                is_quotient(*biedged, g0.edge_seq(), proj_map@, EdgeColor::Black, true),
                is_quotient(*biedged, g0.edge_seq(), proj_map@, EdgeColor::Gray, true),
                stays_linked(g0, all, proj_map@),
                entries_linked(g0, all, p0, proj_map@),
                closed_up_to(all, k as int, i as int, proj_map@),
            decreases edges.len() - i,
        {
            let (a, b) = edges[i];
            let ghost p = proj_map@;
            proof {
                assert(all[k as int] == loops@[k as int]@);
                assert(is_loop(g0, all[k as int]));
                assert(all[k as int][i as int] == (a, b));
                assert(is_loop_edge(all, k as int, i as int));
                assert(same_pair(all[k as int][i as int].0, all[k as int][i as int].1, a, b));
                assert(g0.count(a, b, EdgeColor::Black) > 0);
                let at = lemma_edge_has_record(g0.edge_seq(), a, b, EdgeColor::Black);
                assert(g0.has_node(a) && g0.has_node(b));
            }
            merge_between(biedged, proj_map, a, b, Ghost(g0), Ghost(p0), Ghost(all));
            proof {
                lemma_closing_step(all, k as int, i as int, p, proj_map@);
            }
            i += 1;
        }
        proof {
            assert(all[k as int] == loops@[k as int]@);
            lemma_closing_moves_on(all, k as int, proj_map@);
        }
        k += 1;
    }
    let ends = first_ends(&loops);
    let ghost gm = *biedged;
    let ghost pm = proj_map@;
    proof {
        lemma_nothing_taken(gm, e0, pm);
        assert(ends@.take(0) =~= Seq::<u64>::empty());
    }
    let mut t: usize = 0;
    while t < ends.len()
        invariant
            t <= ends.len(),
            g0.wf(),
            gm.wf(),
            biedged.wf(),
            e0 == g0.edge_seq(),
            proj_map@ == pm,
            ends@ == loop_ends(all),
            forall|a: int| 0 <= a < all.len() ==> is_loop(g0, #[trigger] all[a]),
            represents(g0, p0, gm, pm),
            entries_linked(g0, all, p0, pm),
            is_quotient(gm, e0, pm, EdgeColor::Black, true),
            loops_taken(gm, e0, pm, ends@.take(t as int), *biedged),
        decreases ends.len() - t,
    {
        let end = ends[t];
        let ghost g = *biedged;
        proof {
            lemma_loop_ends_are_nodes(g0, all, t as int);
            lemma_represented(g0, p0, gm, pm, end);
        }
        let r = find_projection(proj_map, end);
        let taken = biedged.contract_edge(r, r, EdgeColor::Black);
        proof {
            if taken.is_some() {
                assert(merged_edges(g, *biedged, r, r, Some(EdgeColor::Black)));
                assert(biedged.color_total(EdgeColor::Black) == g.color_total(EdgeColor::Black)
                    - 1);
                assert(biedged.color_total(EdgeColor::Gray) == g.color_total(EdgeColor::Gray));
            }
            lemma_take_step(gm, e0, pm, ends@, t as int, g, *biedged, r, taken.is_some());
        }
        t += 1;
    }
    proof {
        assert(ends@.take(t as int) =~= ends@);
        reveal(loops_taken);
        reveal(entries_linked);
        assert forall|k: u64| p0.contains_key(k) && !g0.has_node(k) implies #[trigger] pm[k]
            == p0[k] by {
            assert(pm.contains_key(k));
        }
        assert(fits(pm, *biedged) && forall|x: u64|
            g0.has_node(x) ==> biedged.has_node(#[trigger] find(pm, x))) by {
            reveal(represents);
        }
        assert forall|y: u64| biedged.has_node(y) implies g0.has_node(y) by {
            reveal(represents);
        }
        assert forall|x: u64| #[trigger] find(pm, x) == find(pm, find(p0, x)) by {
            reveal(represents);
        }
        assert forall|y: u64| is_root(p0, y) && !g0.has_node(y) implies is_root(pm, y) by {
            reveal(represents);
        }
        assert forall|x: u64, y: u64|
            (find(pm, x) == find(pm, y)) == #[trigger] linked(all, find(p0, x), find(p0, y)) by {
            lemma_linked_iff(g0, p0, all, gm, pm, x, y);
        }
        assert forall|x: u64, y: u64, color: EdgeColor| #[trigger]
            biedged.count(x, y, color) == between_images(e0, find_map(pm), x, y, color) - (if color
                == EdgeColor::Black && x == y {
                contracted_at(e0, pm, loop_ends(all), x) as int
            } else {
                0int
            }) by {
            reveal(is_quotient);
            assert(gm.count(x, y, color) == between_images(e0, find_map(pm), x, y, color)) by {
                if color == EdgeColor::Black {
                } else {
                    assert(color == EdgeColor::Gray);
                    assert(is_quotient(gm, e0, pm, EdgeColor::Gray, true));
                }
            }
        }
    }
    loops
}

/// The bridges of the black edges: the single edges between two vertices
/// that lie on none of the cycles, in the order of the edge list.
pub fn find_bridges(biedged: &BiedgedGraph) -> (r: Vec<BiedgedEdge>)
    requires
        biedged.wf(),
    ensures
        r@ == biedged.edge_seq().filter(is_bridge_of(all_loops(*biedged))),
{
    let loops = find_loops(biedged);
    bridges_outside(biedged, &loops)
}

/// How far the members have been checked: every member before the place
/// `(i, j)` is a vertex of the graph, `seen` holds exactly those members,
/// and no two of them are the same.
pub open spec fn checked_up_to(
    graph: BiedgedGraph,
    components: Seq<Seq<usize>>,
    seen: Set<usize>,
    i: int,
    j: int,
) -> bool {
    &&& forall|k: int| 0 <= k < i ==> (#[trigger] components[k]).len() > 0
    &&& forall|k: int, l: int|
        is_member(components, k, l) && comes_before(k, l, i, j) ==> graph.has_node(
            #[trigger] components[k][l] as u64,
        ) && seen.contains(components[k][l])
    &&& forall|x: usize|
        seen.contains(x) ==> exists|k: int, l: int|
            is_member(components, k, l) && comes_before(k, l, i, j) && #[trigger] components[k][l]
                == x
    &&& forall|k: int, l: int, m: int, n: int|
        is_member(components, k, l) && comes_before(k, l, i, j) && is_member(components, m, n)
            && comes_before(m, n, i, j) && (k != m || l != n) ==> #[trigger] components[k][l]
            != #[trigger] components[m][n]
}

/// Whether the components can be merged: none is empty, every member is a
/// vertex of the graph, and no vertex is named twice.
pub fn can_merge(biedged: &BiedgedGraph, components: &Vec<Vec<usize>>) -> (r: bool)
    requires
        biedged.wf(),
    ensures
        r == mergeable(*biedged, lists(components@)),
{
    broadcast use vstd::std_specs::hash::group_hash_axioms;

    let ghost all = lists(components@);
    let mut seen: FxHashSet<usize> = FxHashSet::default();
    let mut i: usize = 0;
    while i < components.len()
        invariant
            i <= components.len(),
            all == lists(components@),
            checked_up_to(*biedged, all, seen@, i as int, 0),
        decreases components.len() - i,
    {
        let c = &components[i];
        proof {
            assert(all[i as int] == c@);
        }
        if c.len() == 0 {
            return false;
        }
        let mut j: usize = 0;
        while j < c.len()
            invariant
                j <= c.len(),
                i < components.len(),
                all == lists(components@),
                all[i as int] == c@,
                c@.len() > 0,
                checked_up_to(*biedged, all, seen@, i as int, j as int),
            decreases c.len() - j,
        {
            let x = c[j];
            proof {
                assert(is_member(all, i as int, j as int));
                assert(all[i as int][j as int] == x);
            }
            if !biedged.contains_node(x as u64) {
                return false;
            }
            let ghost had = seen@;
            if !set_insert(&mut seen, x) {
                proof {
                    let (k, l) = choose|k: int, l: int|
                        is_member(all, k, l) && comes_before(k, l, i as int, j as int)
                            && #[trigger] all[k][l] == x;
                    assert(all[k][l] == all[i as int][j as int]);
                    assert(k != i || l != j);
                }
                return false;
            }
            proof {
                assert forall|k: int, l: int|
                    is_member(all, k, l) && comes_before(k, l, i as int, j as int + 1) implies biedged.has_node(
                    #[trigger] all[k][l] as u64,
                ) && seen@.contains(all[k][l]) by {
                    if comes_before(k, l, i as int, j as int) {
                        assert(had.contains(all[k][l]));
                    }
                }
                assert forall|y: usize| seen@.contains(y) implies exists|k: int, l: int|
                    is_member(all, k, l) && comes_before(k, l, i as int, j as int + 1)
                        && #[trigger] all[k][l] == y by {
                    if had.contains(y) {
                        let (k, l) = choose|k: int, l: int|
                            is_member(all, k, l) && comes_before(k, l, i as int, j as int)
                                && #[trigger] all[k][l] == y;
                        assert(comes_before(k, l, i as int, j as int + 1));
                    } else {
                        assert(y == x);
                        assert(comes_before(i as int, j as int, i as int, j as int + 1));
                    }
                }
                assert forall|k: int, l: int, m: int, n: int|
                    is_member(all, k, l) && comes_before(k, l, i as int, j as int + 1)
                        && is_member(all, m, n) && comes_before(m, n, i as int, j as int + 1) && (k
                        != m || l != n) implies #[trigger] all[k][l] != #[trigger] all[m][n] by {
                    if comes_before(k, l, i as int, j as int) && comes_before(
                        m,
                        n,
                        i as int,
                        j as int,
                    ) {
                    } else if comes_before(k, l, i as int, j as int) {
                        assert(had.contains(all[k][l]));
                    } else if comes_before(m, n, i as int, j as int) {
                        assert(had.contains(all[m][n]));
                    }
                }
            }
            j += 1;
        }
        proof {
            assert forall|k: int, l: int| is_member(all, k, l) implies (comes_before(
                k,
                l,
                i as int,
                j as int,
            ) <==> comes_before(k, l, i as int + 1, 0)) by {}
            assert forall|y: usize| seen@.contains(y) implies exists|k: int, l: int|
                is_member(all, k, l) && comes_before(k, l, i as int + 1, 0) && #[trigger] all[k][l]
                    == y by {
                let (k, l) = choose|k: int, l: int|
                    is_member(all, k, l) && comes_before(k, l, i as int, j as int)
                        && #[trigger] all[k][l] == y;
                assert(comes_before(k, l, i as int + 1, 0));
            }
        }
        i += 1;
    }
    proof {
        assert forall|k: int, l: int| is_member(all, k, l) implies comes_before(
            k,
            l,
            i as int,
            0,
        ) by {}
    }
    true
}

/// A copy of the components.
fn copy_lists(components: &Vec<Vec<usize>>) -> (copy: Vec<Vec<usize>>)
    ensures
        lists(copy@) == lists(components@),
{
    let mut copy: Vec<Vec<usize>> = Vec::new();
    let mut i: usize = 0;
    while i < components.len()
        invariant
            i <= components.len(),
            copy@.len() == i,
            forall|k: int| 0 <= k < i ==> (#[trigger] copy@[k])@ == components@[k]@,
        decreases components.len() - i,
    {
        let c = copy_list(&components[i]);
        copy.push(c);
        i += 1;
    }
    proof {
        assert(lists(copy@) =~= lists(components@));
    }
    copy
}

/// Finds the 3-edge-connected components of the black edges and merges
/// each into its first vertex. Returns the components that it merged, or
/// `None`, with nothing changed, where the components that were found
/// cannot be merged.
///
/// Which components there are is for `three_edge_connected` to say: the
/// outcome is what [`merge_where_possible`] makes of what
/// [`find_3_edge_connected_components`] gives.
pub fn merge_three_edge_connected(
    biedged: &mut BiedgedGraph,
    proj_map: &mut BTreeMap<u64, u64>,
) -> (merged: Option<Vec<Vec<usize>>>)
    requires
        old(biedged).wf(),
        fits(old(proj_map)@, *old(biedged)),
    ensures
        exists|found: Seq<Seq<usize>>|
            {
                &&& #[trigger] named_components(
                    first_seen(black_edge_list(old(biedged).edge_seq())),
                    found,
                ) is Some
                &&& merged_where_possible(
                    *old(biedged),
                    old(proj_map)@,
                    named_components(
                        first_seen(black_edge_list(old(biedged).edge_seq())),
                        found,
                    ).unwrap(),
                    optional_lists(merged),
                    *final(biedged),
                    final(proj_map)@,
                )
            },
        match merged {
            Some(components) => {
                &&& mergeable(*old(biedged), lists(components@))
                &&& components_among(
                    first_seen(black_edge_list(old(biedged).edge_seq())),
                    lists(components@),
                )
                &&& merged_by(
                    *old(biedged),
                    old(proj_map)@,
                    lists(components@),
                    *final(biedged),
                    final(proj_map)@,
                )
            },
            None => *final(biedged) == *old(biedged) && final(proj_map)@ == old(proj_map)@,
        },
{
    let ghost vertices = first_seen(black_edge_list(biedged.edge_seq()));
    let found = find_3_edge_connected_components(biedged);
    let ghost answer = choose|answer: Seq<Seq<usize>>|
        #[trigger] named_components(vertices, answer) == Some(lists(found@));
    let merged = merge_where_possible(biedged, found, proj_map);
    proof {
        assert(named_components(vertices, answer) is Some);
        assert(merged_where_possible(
            *old(biedged),
            old(proj_map)@,
            named_components(vertices, answer).unwrap(),
            optional_lists(merged),
            *biedged,
            proj_map@,
        ));
    }
    merged
}

/// The lists that the components hold, where there are components.
pub open spec fn optional_lists(components: Option<Vec<Vec<usize>>>) -> Option<Seq<Seq<usize>>> {
    match components {
        Some(components) => Some(lists(components@)),
        None => None,
    }
}

/// What merging makes of the components that were found: where they can be
/// merged, they are merged and come back; else nothing comes back and
/// nothing is changed.
pub open spec fn merged_where_possible(
    g0: BiedgedGraph,
    p0: Map<u64, u64>,
    found: Seq<Seq<usize>>,
    merged: Option<Seq<Seq<usize>>>,
    g: BiedgedGraph,
    p: Map<u64, u64>,
) -> bool {
    if mergeable(g0, found) {
        merged == Some(found) && merged_by(g0, p0, found, g, p)
    } else {
        merged is None && g == g0 && p == p0
    }
}

/// Merges each of the components that were found into its first vertex,
/// where they can be merged: none is empty, every member is a vertex of the
/// graph, and no vertex is named twice. Returns the components that it
/// merged, or `None`, with nothing changed.
pub fn merge_where_possible(
    biedged: &mut BiedgedGraph,
    found: Vec<Vec<usize>>,
    proj_map: &mut BTreeMap<u64, u64>,
) -> (merged: Option<Vec<Vec<usize>>>)
    requires
        old(biedged).wf(),
        fits(old(proj_map)@, *old(biedged)),
    ensures
        merged_where_possible(
            *old(biedged),
            old(proj_map)@,
            lists(found@),
            optional_lists(merged),
            *final(biedged),
            final(proj_map)@,
        ),
{
    if can_merge(biedged, &found) {
        let merged = copy_lists(&found);
        merge_components(biedged, found, proj_map);
        Some(merged)
    } else {
        None
    }
}

/// The graph of a list of sequence nodes and a list of links with every
/// gray edge contracted, and the map that says which endpoint stands for
/// which.
///
/// The graph has as many black edges as there are sequence nodes and no
/// gray edge, and its vertices are the connected components of the links:
/// two endpoints have one representative exactly if a path of links joins
/// them. The black edge of every sequence node lies between the
/// representatives of its endpoints.
pub fn gray_contracted_graph(segments: &Vec<u64>, links: &Vec<(u64, u64)>) -> (r: Result<
    (BiedgedGraph, BTreeMap<u64, u64>),
    GraphError,
>)
    ensures
        match r {
            Ok((graph, proj_map)) => {
                &&& graph.wf()
                &&& fits(proj_map@, graph)
                &&& graph.color_total(EdgeColor::Gray) == 0
                &&& graph.color_total(EdgeColor::Black) == segments@.len()
                &&& forall|x: u64|
                    declared(segments@, x) ==> graph.has_node(#[trigger] find(proj_map@, x))
                        && prefers(find(proj_map@, x), x)
                &&& forall|y: u64| graph.has_node(y) ==> declared(segments@, y)
                &&& forall|x: u64, y: u64|
                    #[trigger] graph.count(x, y, EdgeColor::Black) == between_images(
                        input_edges(segments@, links@),
                        find_map(proj_map@),
                        x,
                        y,
                        EdgeColor::Black,
                    )
                &&& forall|a: u64, b: u64|
                    declared(segments@, a) && declared(segments@, b) ==> (find(proj_map@, a) == find(
                        proj_map@,
                        b,
                    ) <==> #[trigger] connected(
                        input_edges(segments@, links@),
                        a,
                        b,
                        EdgeColor::Gray,
                    ))
            },
            Err(GraphError::InvalidGraph { endpoint }) => input_fault(
                segments@,
                links@,
                endpoint,
            ),
        },
{
    let mut graph = match BiedgedGraph::from_segments(segments, links) {
        Ok(graph) => graph,
        Err(e) => {
            return Err(e);
        },
    };
    let mut proj_map: BTreeMap<u64, u64> = BTreeMap::new();
    let ghost g0 = graph;
    proof {
        lemma_empty_map_fits(graph);
    }
    contract_all_gray_edges(&mut graph, &mut proj_map);
    proof {
        assert forall|x: u64, y: u64| #[trigger]
            graph.count(x, y, EdgeColor::Black) == between_images(
                input_edges(segments@, links@),
                find_map(proj_map@),
                x,
                y,
                EdgeColor::Black,
            ) by {
            assert(between_images(g0.edge_seq(), find_map(proj_map@), x, y, EdgeColor::Black)
                == between_images(
                input_edges(segments@, links@),
                find_map(proj_map@),
                x,
                y,
                EdgeColor::Black,
            ));
        }
        assert forall|a: u64, b: u64|
            declared(segments@, a) && declared(segments@, b) implies (find(proj_map@, a) == find(
            proj_map@,
            b,
        ) <==> #[trigger] connected(input_edges(segments@, links@), a, b, EdgeColor::Gray)) by {
            assert(g0.has_node(a) && g0.has_node(b));
            assert forall|x: u64, y: u64| #[trigger]
                between(g0.edge_seq(), x, y, EdgeColor::Gray) == between(
                    input_edges(segments@, links@),
                    x,
                    y,
                    EdgeColor::Gray,
                ) by {
                assert(g0.count(x, y, EdgeColor::Gray) == between(
                    input_edges(segments@, links@),
                    x,
                    y,
                    EdgeColor::Gray,
                ));
            }
            lemma_connected_alike(
                g0.edge_seq(),
                input_edges(segments@, links@),
                a,
                b,
                EdgeColor::Gray,
            );
            assert(find(proj_map@, a) == find(proj_map@, b) <==> connected(
                g0.edge_seq(),
                a,
                b,
                EdgeColor::Gray,
            ));
        }
    }
    Ok((graph, proj_map))
}

} // verus!
