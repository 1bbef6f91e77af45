//! Cycles of the black edges.
//!
//! A cycle is written as the list of its vertices in the order in which the
//! cycle passes them; it has as many edges as vertices. A loop at `v` is the
//! cycle `[v]`, two parallel edges between `u` and `v` are the cycle
//! `[u, v]`. Longer cycles are found by a depth-first search that takes the
//! vertices, and the neighbours of each vertex, in ascending order: an edge
//! from the vertex at hand to one further up on the path from the root
//! closes the cycle that runs back up that path.

use crate::biedgedgraph::{ascending, BiedgedGraph};
use crate::edge_sums::{
    lemma_between_symmetric, lemma_edge_has_record, same_pair, BiedgedEdge, EdgeColor,
};
use crate::search::{
    closing, finish, from_roots, is_neighbour, lemma_ascending_same, lemma_filter_ascending,
    lemma_finish_enters, lemma_finish_leaves, lemma_finish_skips, lemma_roots_enter, neighbours,
    search_cycles,
};
use vstd::prelude::*;

verus! {

/// The lists that a vector of cycles holds.
pub open spec fn cycle_lists(v: Seq<Vec<u64>>) -> Seq<Seq<u64>> {
    v.map_values(|c: Vec<u64>| c@)
}

/// `c` is a cycle of black edges of the graph: a loop, two parallel edges,
/// or at least three different vertices, each joined to the next and the
/// last to the first.
pub open spec fn is_cycle(g: BiedgedGraph, c: Seq<u64>) -> bool {
    &&& c.len() >= 1
    &&& c.len() <= 2 ==> g.count(c.first(), c.last(), EdgeColor::Black) >= c.len()
    &&& c.len() == 2 ==> c[0] != c[1]
    &&& c.len() >= 3 ==> {
        &&& c.no_duplicates()
        &&& g.count(c.last(), c.first(), EdgeColor::Black) >= 1
        &&& forall|i: int|
            0 <= i < c.len() - 1 ==> g.count(#[trigger] c[i], c[i + 1], EdgeColor::Black) >= 1
    }
}

/// `l` is a closed walk along black edges of the graph: each edge starts
/// where the one before it ends, and the first where the last ends.
pub open spec fn is_loop(g: BiedgedGraph, l: Seq<(u64, u64)>) -> bool {
    &&& l.len() >= 1
    &&& l.last().1 == l.first().0
    &&& forall|i: int|
        0 <= i < l.len() ==> g.count((#[trigger] l[i]).0, l[i].1, EdgeColor::Black) > 0
    &&& forall|i: int| 0 <= i < l.len() - 1 ==> (#[trigger] l[i]).1 == l[i + 1].0
}

/// The edges of a cycle, from its first vertex round to its first vertex.
pub open spec fn around(c: Seq<u64>) -> Seq<(u64, u64)> {
    Seq::new(
        c.len(),
        |i: int|
            (
                c[i],
                if i + 1 < c.len() {
                    c[i + 1]
                } else {
                    c[0]
                },
            ),
    )
}

/// The edges of a cycle, from its first vertex round to its first vertex.
pub fn edges_around(cycle: &Vec<u64>) -> (edges: Vec<(u64, u64)>)
    ensures
        edges@ == around(cycle@),
{
    let mut edges: Vec<(u64, u64)> = Vec::new();
    let mut i: usize = 0;
    while i < cycle.len()
        invariant
            i <= cycle.len(),
            edges@.len() == i,
            forall|t: int| 0 <= t < i ==> #[trigger] edges@[t] == around(cycle@)[t],
        decreases cycle.len() - i,
    {
        let next = if i + 1 < cycle.len() {
            cycle[i + 1]
        } else {
            cycle[0]
        };
        edges.push((cycle[i], next));
        i += 1;
    }
    proof {
        assert(edges@ =~= around(cycle@));
    }
    edges
}

/// The edges of a cycle are a closed walk.
pub proof fn lemma_around_is_loop(g: BiedgedGraph, c: Seq<u64>)
    requires
        is_cycle(g, c),
    ensures
        is_loop(g, around(c)),
{
    let l = around(c);
    assert forall|t: int| 0 <= t < l.len() implies g.count(
        (#[trigger] l[t]).0,
        l[t].1,
        EdgeColor::Black,
    ) > 0 by {
        if c.len() >= 3 {
            if t + 1 < c.len() {
                assert(g.count(c[t], c[t + 1], EdgeColor::Black) >= 1);
            }
        } else if c.len() == 2 {
            lemma_between_symmetric(g.edge_seq(), c[0], c[1], EdgeColor::Black);
        }
    }
}

/// The lists that a vector of loops holds.
pub open spec fn loop_lists(v: Seq<Vec<(u64, u64)>>) -> Seq<Seq<(u64, u64)>> {
    v.map_values(|l: Vec<(u64, u64)>| l@)
}

/// `(k, i)` is the place of an edge of a loop.
pub open spec fn is_loop_edge(loops: Seq<Seq<(u64, u64)>>, k: int, i: int) -> bool {
    0 <= k < loops.len() && 0 <= i < loops[k].len()
}

/// One of the loops has an edge between `u` and `v`.
pub open spec fn on_loop(loops: Seq<Seq<(u64, u64)>>, u: u64, v: u64) -> bool {
    exists|k: int, i: int|
        is_loop_edge(loops, k, i) && same_pair((#[trigger] loops[k][i]).0, loops[k][i].1, u, v)
}

/// The records that are bridges once the loops are taken as the cycles of
/// the graph: a single black edge between two vertices that lies on none of
/// the loops.
pub open spec fn is_bridge_of(loops: Seq<Seq<(u64, u64)>>) -> spec_fn(BiedgedEdge) -> bool {
    |e: BiedgedEdge| e.from != e.to && e.weight.black == 1 && !on_loop(loops, e.from, e.to)
}

/// The cycles of the black edges: the loops and the pairs of parallel
/// edges, in the order of the edge list, and then the cycles of three and
/// more edges that the depth-first search finds.
pub open spec fn all_cycles(g: BiedgedGraph) -> Seq<Seq<u64>> {
    short_cycles(g.edge_seq()) + search_cycles(g)
}

/// The cycles of the black edges, each as the list of its edges.
pub open spec fn all_loops(g: BiedgedGraph) -> Seq<Seq<(u64, u64)>> {
    all_cycles(g).map_values(|c: Seq<u64>| around(c))
}

/// Whether one of the loops has an edge between `u` and `v`.
pub fn lies_on_loop(loops: &Vec<Vec<(u64, u64)>>, u: u64, v: u64) -> (r: bool)
    ensures
        r == on_loop(loop_lists(loops@), u, v),
{
    let ghost all = loop_lists(loops@);
    let mut k: usize = 0;
    while k < loops.len()
        invariant
            k <= loops.len(),
            all == loop_lists(loops@),
            forall|a: int, b: int|
                0 <= a < k && 0 <= b < loops@[a]@.len() ==> !same_pair(
                    (#[trigger] loops@[a]@[b]).0,
                    loops@[a]@[b].1,
                    u,
                    v,
                ),
        decreases loops.len() - k,
    {
        let edges = &loops[k];
        let mut i: usize = 0;
        while i < edges.len()
            invariant
                i <= edges.len(),
                k < loops.len(),
                all == loop_lists(loops@),
                edges@ == loops@[k as int]@,
                forall|b: int|
                    0 <= b < i ==> !same_pair((#[trigger] edges@[b]).0, edges@[b].1, u, v),
            decreases edges.len() - i,
        {
            let (a, b) = edges[i];
            if (a == u && b == v) || (a == v && b == u) {
                proof {
                    assert(all[k as int] == loops@[k as int]@);
                    assert(is_loop_edge(all, k as int, i as int));
                    assert(same_pair(all[k as int][i as int].0, all[k as int][i as int].1, u, v));
                }
                return true;
            }
            i += 1;
        }
        k += 1;
    }
    proof {
        assert forall|a: int, b: int| is_loop_edge(all, a, b) implies !same_pair(
            (#[trigger] all[a][b]).0,
            all[a][b].1,
            u,
            v,
        ) by {
            assert(all[a][b] == loops@[a]@[b]);
        }
    }
    false
}

/// The bridges of the graph once the loops are taken as its cycles, in the
/// order of the edge list.
pub fn bridges_outside(biedged: &BiedgedGraph, loops: &Vec<Vec<(u64, u64)>>) -> (r: Vec<BiedgedEdge>)
    ensures
        r@ == biedged.edge_seq().filter(is_bridge_of(loop_lists(loops@))),
{
    let edges = biedged.all_edges();
    let mut r: Vec<BiedgedEdge> = Vec::new();
    let mut k: usize = 0;
    proof {
        reveal(Seq::filter);
        assert(edges@.take(0) =~= Seq::<BiedgedEdge>::empty());
    }
    while k < edges.len()
        invariant
            k <= edges.len(),
            edges@ == biedged.edge_seq(),
            r@ == edges@.take(k as int).filter(is_bridge_of(loop_lists(loops@))),
        decreases edges.len() - k,
    {
        let e = edges[k];
        proof {
            assert(edges@.take(k as int + 1) =~= edges@.take(k as int).push(e));
            edges@.take(k as int).lemma_filter_push(e, is_bridge_of(loop_lists(loops@)));
        }
        if e.from != e.to && e.weight.black == 1 && !lies_on_loop(loops, e.from, e.to) {
            r.push(e);
        }
        k += 1;
    }
    proof {
        assert(edges@.take(k as int) =~= edges@);
    }
    r
}

/// `n` times the same cycle.
pub open spec fn copies(cycle: Seq<u64>, n: nat) -> Seq<Seq<u64>> {
    Seq::new(n, |i: int| cycle)
}

/// The cycles of one and two edges that one record holds: a loop for each
/// edge of a record at one vertex, and for a record between two vertices
/// one cycle of two edges for each edge over the first.
pub open spec fn short_cycles_of(e: BiedgedEdge) -> Seq<Seq<u64>> {
    if e.from == e.to {
        copies(seq![e.from], e.weight.black as nat)
    } else if e.weight.black >= 2 {
        copies(seq![e.from, e.to], (e.weight.black - 1) as nat)
    } else {
        Seq::empty()
    }
}

/// The cycles of one and two edges of an edge list, in its order.
pub open spec fn short_cycles(edges: Seq<BiedgedEdge>) -> Seq<Seq<u64>>
    decreases edges.len(),
{
    if edges.len() == 0 {
        Seq::empty()
    } else {
        short_cycles(edges.drop_last()) + short_cycles_of(edges.last())
    }
}

/// The cycles of one and two edges, in the order of the edge list.
pub fn find_short_cycles(biedged: &BiedgedGraph) -> (cycles: Vec<Vec<u64>>)
    requires
        biedged.wf(),
    ensures
        cycle_lists(cycles@) == short_cycles(biedged.edge_seq()),
        forall|i: int| 0 <= i < cycles@.len() ==> is_cycle(*biedged, (#[trigger] cycles@[i])@),
        forall|i: int| 0 <= i < cycles@.len() ==> (#[trigger] cycles@[i])@.len() <= 2,
{
    let edges = biedged.all_edges();
    let mut cycles: Vec<Vec<u64>> = Vec::new();
    let mut k: usize = 0;
    proof {
        assert(edges@.take(0) =~= Seq::<BiedgedEdge>::empty());
        assert(cycle_lists(cycles@) =~= Seq::<Seq<u64>>::empty());
    }
    while k < edges.len()
        invariant
            k <= edges.len(),
            biedged.wf(),
            edges@ == biedged.edge_seq(),
            cycle_lists(cycles@) == short_cycles(edges@.take(k as int)),
            forall|i: int| 0 <= i < cycles@.len() ==> is_cycle(*biedged, (#[trigger] cycles@[i])@),
            forall|i: int| 0 <= i < cycles@.len() ==> (#[trigger] cycles@[i])@.len() <= 2,
        decreases edges.len() - k,
    {
        let e = edges[k];
        let ghost before = cycle_lists(cycles@);
        let times = if e.from == e.to {
            e.weight.black
        } else if e.weight.black >= 2 {
            e.weight.black - 1
        } else {
            0
        };
        let ghost cycle = if e.from == e.to {
            seq![e.from]
        } else {
            seq![e.from, e.to]
        };
        proof {
            crate::biedgedgraph::lemma_record_holds_all(
                biedged.node_seq(),
                edges@,
                k as int,
                e.from,
                e.to,
                EdgeColor::Black,
            );
            assert(short_cycles_of(e) =~= copies(cycle, times as nat));
        }
        let mut c: usize = 0;
        while c < times
            invariant
                c <= times,
                cycle == (if e.from == e.to {
                    seq![e.from]
                } else {
                    seq![e.from, e.to]
                }),
                times > 0 ==> biedged.count(e.from, e.to, EdgeColor::Black) >= cycle.len(),
                cycle_lists(cycles@) == before + copies(cycle, c as nat),
                forall|i: int|
                    0 <= i < cycles@.len() ==> is_cycle(*biedged, (#[trigger] cycles@[i])@),
                forall|i: int| 0 <= i < cycles@.len() ==> (#[trigger] cycles@[i])@.len() <= 2,
            decreases times - c,
        {
            let mut one: Vec<u64> = Vec::new();
            one.push(e.from);
            if e.from != e.to {
                one.push(e.to);
            }
            proof {
                assert(one@ =~= cycle);
                assert(is_cycle(*biedged, one@));
            }
            let ghost had = cycles@;
            cycles.push(one);
            c += 1;
            proof {
                assert(cycle_lists(cycles@) =~= cycle_lists(had).push(cycle));
                assert(cycle_lists(cycles@) =~= before + copies(cycle, c as nat));
                assert forall|i: int| 0 <= i < cycles@.len() implies is_cycle(
                    *biedged,
                    (#[trigger] cycles@[i])@,
                ) && cycles@[i]@.len() <= 2 by {
                    if i < had.len() {
                        assert(cycles@[i] == had[i]);
                    }
                }
            }
        }
        proof {
            assert(edges@.take(k as int + 1).drop_last() =~= edges@.take(k as int));
            assert(edges@.take(k as int + 1).last() == e);
        }
        k += 1;
    }
    proof {
        assert(edges@.take(k as int) =~= edges@);
    }
    cycles
}

/// The vertices at a list of places in the vertex list.
pub open spec fn ids(nodes: Seq<u64>, places: Seq<usize>) -> Seq<u64> {
    places.map_values(|p: usize| nodes[p as int])
}

/// The lists are the neighbours of the vertices: the list at the place of a
/// vertex holds the places of its neighbours, in ascending order.
pub open spec fn adjacency_ok(g: BiedgedGraph, adj: Seq<Vec<usize>>) -> bool {
    &&& adj.len() == g.node_seq().len()
    &&& forall|v: int|
        0 <= v < adj.len() ==> ids(g.node_seq(), (#[trigger] adj[v])@) == neighbours(
            g,
            g.node_seq()[v],
        )
    &&& forall|v: int, t: int|
        0 <= v < adj.len() && 0 <= t < adj[v]@.len() ==> (#[trigger] adj[v]@[t]) < adj.len()
}

/// A black edge joins the vertices at the places `a` and `b`.
pub open spec fn joined(g: BiedgedGraph, a: usize, b: usize) -> bool {
    g.count(g.node_seq()[a as int], g.node_seq()[b as int], EdgeColor::Black) > 0
}

/// A neighbour of a vertex is another vertex that a black edge joins to
/// it.
proof fn lemma_neighbour_is_joined(g: BiedgedGraph, adj: Seq<Vec<usize>>, v: usize, t: int)
    requires
        g.wf(),
        adjacency_ok(g, adj),
        v < adj.len(),
        0 <= t < adj[v as int]@.len(),
    ensures
        adj[v as int]@[t] < adj.len(),
        adj[v as int]@[t] != v,
        joined(g, v, adj[v as int]@[t]),
        g.node_seq()[adj[v as int]@[t] as int] == neighbours(g, g.node_seq()[v as int])[t],
        adj[v as int]@.len() == neighbours(g, g.node_seq()[v as int]).len(),
{
    let nodes = g.node_seq();
    let around = neighbours(g, nodes[v as int]);
    assert(ids(nodes, adj[v as int]@) == around);
    assert(ids(nodes, adj[v as int]@)[t] == nodes[adj[v as int]@[t] as int]);
    lemma_filter_ascending(nodes, is_neighbour(g, nodes[v as int]));
    assert(around.contains(around[t]));
}

/// For each vertex, by its place in the vertex list, the places of the
/// other vertices that a black edge joins to it, in ascending order.
fn adjacency(biedged: &BiedgedGraph) -> (adj: Vec<Vec<usize>>)
    requires
        biedged.wf(),
    ensures
        adjacency_ok(*biedged, adj@),
{
    let nodes = biedged.nodes();
    let mut adj: Vec<Vec<usize>> = Vec::new();
    let mut v: usize = 0;
    while v < nodes.len()
        invariant
            v <= nodes.len(),
            biedged.wf(),
            nodes@ == biedged.node_seq(),
            adj@.len() == v,
            forall|a: int|
                0 <= a < adj@.len() ==> ids(nodes@, (#[trigger] adj@[a])@) == neighbours(
                    *biedged,
                    nodes@[a],
                ),
            forall|a: int, t: int|
                0 <= a < adj@.len() && 0 <= t < adj@[a]@.len() ==> (#[trigger] adj@[a]@[t])
                    < nodes@.len(),
        decreases nodes.len() - v,
    {
        let list = neighbour_places(biedged, v);
        let ghost had = adj@;
        adj.push(list);
        proof {
            assert forall|a: int| 0 <= a < adj@.len() implies ids(nodes@, (#[trigger] adj@[a])@)
                == neighbours(*biedged, nodes@[a]) by {
                if a < v {
                    assert(adj@[a] == had[a]);
                }
            }
            assert forall|a: int, t: int|
                0 <= a < adj@.len() && 0 <= t < adj@[a]@.len() implies (#[trigger] adj@[a]@[t])
                < nodes@.len() by {
                if a < v {
                    assert(adj@[a] == had[a]);
                }
            }
        }
        v += 1;
    }
    adj
}

/// The places of the neighbours of the vertex at the place `v`, in
/// ascending order.
fn neighbour_places(biedged: &BiedgedGraph, v: usize) -> (list: Vec<usize>)
    requires
        biedged.wf(),
        v < biedged.node_seq().len(),
    ensures
        ids(biedged.node_seq(), list@) == neighbours(*biedged, biedged.node_seq()[v as int]),
        forall|t: int| 0 <= t < list@.len() ==> (#[trigger] list@[t]) < biedged.node_seq().len(),
{
    let nodes = biedged.nodes();
    let here = nodes[v];
    let around = biedged.neighbors_of(here, EdgeColor::Black);
    let mut list: Vec<usize> = Vec::new();
    let mut t: usize = 0;
    proof {
        assert(ids(nodes@, list@) =~= Seq::<u64>::empty());
    }
    while t < around.len()
        invariant
            t <= around.len(),
            biedged.wf(),
            nodes@ == biedged.node_seq(),
            here == nodes@[v as int],
            ascending(around@),
            forall|x: u64| around@.contains(x) <==> biedged.count(here, x, EdgeColor::Black) > 0,
            forall|i: int| 0 <= i < list@.len() ==> (#[trigger] list@[i]) < nodes@.len(),
            ascending(ids(nodes@, list@)),
            forall|x: u64|
                ids(nodes@, list@).contains(x) <==> (around@.take(t as int).contains(x) && x
                    != here),
        decreases around.len() - t,
    {
        let x = around[t];
        let ghost had = list@;
        let ghost before = ids(nodes@, had);
        proof {
            assert(around@.contains(x));
            let at = lemma_edge_has_record(biedged.edge_seq(), here, x, EdgeColor::Black);
            assert(biedged.has_node(x));
            crate::seq_facts::lemma_take_one_more(around@, t as int, x);
        }
        if x != here {
            match biedged.position_of(x) {
                Some(at) => {
                    list.push(at);
                    proof {
                        let now = ids(nodes@, list@);
                        assert(now =~= before.push(x));
                        assert forall|i: int, j: int| 0 <= i < j < now.len() implies now[i]
                            < now[j] by {
                            if j == before.len() {
                                assert(before.contains(before[i]));
                                let k = choose|k: int|
                                    0 <= k < around@.take(t as int).len() && around@.take(
                                        t as int,
                                    )[k] == before[i];
                                assert(around@[k] < around@[t as int]);
                            } else {
                                assert(before[i] < before[j]);
                            }
                        }
                        assert forall|y: u64|
                            now.contains(y) <==> (around@.take(t as int + 1).contains(y) && y
                                != here) by {
                            crate::seq_facts::lemma_take_one_more(around@, t as int, y);
                            if now.contains(y) {
                                let i = choose|i: int| 0 <= i < now.len() && now[i] == y;
                                if i < before.len() {
                                    assert(before[i] == y);
                                    assert(before.contains(y));
                                }
                            }
                            if before.contains(y) {
                                let i = choose|i: int| 0 <= i < before.len() && before[i] == y;
                                assert(now[i] == y);
                            }
                            if y == x {
                                assert(now[before.len() as int] == y);
                            }
                        }
                    }
                },
                None => {},
            }
        } else {
            proof {
                assert forall|y: u64|
                    before.contains(y) <==> (around@.take(t as int + 1).contains(y) && y
                        != here) by {
                    crate::seq_facts::lemma_take_one_more(around@, t as int, y);
                }
            }
        }
        t += 1;
    }
    proof {
        assert(around@.take(t as int) =~= around@);
        let mine = ids(nodes@, list@);
        let theirs = neighbours(*biedged, here);
        lemma_filter_ascending(nodes@, is_neighbour(*biedged, here));
        assert forall|x: u64| mine.contains(x) <==> theirs.contains(x) by {
            if biedged.count(here, x, EdgeColor::Black) > 0 {
                let at = lemma_edge_has_record(biedged.edge_seq(), here, x, EdgeColor::Black);
                assert(biedged.has_node(x));
            }
        }
        lemma_ascending_same(mine, theirs);
    }
    list
}

/// How many vertices the search has not come to yet.
pub open spec fn unvisited(state: Seq<u8>) -> nat
    decreases state.len(),
{
    if state.len() == 0 {
        0
    } else {
        unvisited(state.drop_last()) + (if state.last() == 0 {
            1nat
        } else {
            0nat
        })
    }
}

proof fn lemma_unvisited_update(state: Seq<u8>, i: int, x: u8)
    requires
        0 <= i < state.len(),
        x != 0,
    ensures
        unvisited(state.update(i, x)) == unvisited(state) - (if state[i] == 0 {
            1int
        } else {
            0int
        }),
    decreases state.len(),
{
    let t = state.update(i, x);
    if i == state.len() - 1 {
        assert(t.drop_last() =~= state.drop_last());
    } else {
        assert(t.drop_last() =~= state.drop_last().update(i, x));
        lemma_unvisited_update(state.drop_last(), i, x);
    }
}

/// How many neighbours of the vertex at the end of the path are still to be
/// looked at.
pub open spec fn left_to_try(adj: Seq<Vec<usize>>, path: Seq<usize>, cursor: Seq<usize>) -> nat {
    if path.len() > 0 && cursor.len() == path.len() && path.last() < adj.len() && cursor.last()
        <= adj[path.last() as int]@.len() {
        (adj[path.last() as int]@.len() - cursor.last()) as nat
    } else {
        0
    }
}

fn zeros_u8(n: usize) -> (v: Vec<u8>)
    ensures
        v@.len() == n,
        forall|i: int| 0 <= i < n ==> v@[i] == 0,
{
    let mut v: Vec<u8> = Vec::new();
    while v.len() < n
        invariant
            v@.len() <= n,
            forall|i: int| 0 <= i < v@.len() ==> v@[i] == 0,
        decreases n - v.len(),
    {
        v.push(0);
    }
    v
}

fn zeros(n: usize) -> (v: Vec<usize>)
    ensures
        v@.len() == n,
{
    let mut v: Vec<usize> = Vec::new();
    while v.len() < n
        invariant
            v@.len() <= n,
        decreases n - v.len(),
    {
        v.push(0);
    }
    v
}

/// The path of the search is a path of the graph, and the search knows
/// where on it each vertex lies.
pub open spec fn path_ok(
    g: BiedgedGraph,
    adj: Seq<Vec<usize>>,
    state: Seq<u8>,
    depth: Seq<usize>,
    path: Seq<usize>,
    cursor: Seq<usize>,
) -> bool {
    &&& state.len() == adj.len()
    &&& depth.len() == adj.len()
    &&& cursor.len() == path.len()
    &&& forall|t: int|
        0 <= t < path.len() ==> {
            &&& (#[trigger] path[t]) < adj.len()
            &&& state[path[t] as int] == 1
            &&& depth[path[t] as int] == t
            &&& cursor[t] <= adj[path[t] as int]@.len()
        }
    &&& forall|v: int|
        0 <= v < state.len() && #[trigger] state[v] == 1 ==> depth[v] < path.len() && path[depth[v] as int]
            == v
    &&& forall|t: int| 0 <= t < path.len() - 1 ==> joined(g, #[trigger] path[t], path[t + 1])
}

/// The vertices that the search has come to.
pub open spec fn seen_of(nodes: Seq<u64>, state: Seq<u8>) -> Set<u64> {
    Set::new(
        |x: u64|
            exists|v: int| 0 <= v < state.len() && v < nodes.len() && state[v] != 0 && #[trigger] nodes[v] == x,
    )
}

/// Coming to one more vertex.
proof fn lemma_seen_one_more(nodes: Seq<u64>, state: Seq<u8>, v: int, mark: u8)
    requires
        0 <= v < state.len(),
        state.len() == nodes.len(),
        mark != 0,
        ascending(nodes),
    ensures
        seen_of(nodes, state.update(v, mark)) == seen_of(nodes, state).insert(nodes[v]),
        seen_of(nodes, state).contains(nodes[v]) == (state[v] != 0),
{
    let after = state.update(v, mark);
    assert forall|x: u64|
        seen_of(nodes, after).contains(x) <==> seen_of(nodes, state).insert(nodes[v]).contains(
            x,
        ) by {
        if seen_of(nodes, after).contains(x) {
            let w = choose|w: int|
                0 <= w < after.len() && w < nodes.len() && after[w] != 0 && #[trigger] nodes[w]
                    == x;
            if w != v {
                assert(state[w] != 0);
            }
        }
        if seen_of(nodes, state).contains(x) {
            let w = choose|w: int|
                0 <= w < state.len() && w < nodes.len() && state[w] != 0 && #[trigger] nodes[w]
                    == x;
            assert(after[w] != 0);
        }
        if x == nodes[v] {
            assert(after[v] != 0);
        }
    }
    assert(seen_of(nodes, after) =~= seen_of(nodes, state).insert(nodes[v]));
    if seen_of(nodes, state).contains(nodes[v]) {
        let w = choose|w: int|
            0 <= w < state.len() && w < nodes.len() && state[w] != 0 && #[trigger] nodes[w]
                == nodes[v];
        if w < v {
            assert(nodes[w] < nodes[v]);
        }
        if v < w {
            assert(nodes[v] < nodes[w]);
        }
    }
    if state[v] != 0 {
        assert(nodes[v] == nodes[v]);
    }
}

/// The numbers of a list as natural numbers.
pub open spec fn as_nats(cursor: Seq<usize>) -> Seq<nat> {
    cursor.map_values(|c: usize| c as nat)
}

/// The state of a depth-first search: for each vertex whether the search
/// has not come to it (0), is below it (1) or is done with it (2), the path
/// from the root to the vertex at hand, for each vertex on the path where
/// on it it lies, and how many of its neighbours have been looked at.
struct Search {
    state: Vec<u8>,
    depth: Vec<usize>,
    path: Vec<usize>,
    cursor: Vec<usize>,
}

impl Search {
    #[verifier::opaque]
    spec fn ok(&self, g: BiedgedGraph, adj: Seq<Vec<usize>>) -> bool {
        &&& g.wf()
        &&& adjacency_ok(g, adj)
        &&& path_ok(g, adj, self.state@, self.depth@, self.path@, self.cursor@)
    }

    spec fn todo(&self) -> nat {
        unvisited(self.state@)
    }

    spec fn rest(&self, adj: Seq<Vec<usize>>) -> nat {
        left_to_try(adj, self.path@, self.cursor@)
    }

    /// The path from the root to the vertex at hand.
    spec fn way(&self, g: BiedgedGraph) -> Seq<u64> {
        ids(g.node_seq(), self.path@)
    }

    /// The vertices that the search has come to.
    spec fn seen(&self, g: BiedgedGraph) -> Set<u64> {
        seen_of(g.node_seq(), self.state@)
    }

    /// For each vertex on the path, how many of its neighbours have been
    /// looked at.
    spec fn tried(&self) -> Seq<nat> {
        as_nats(self.cursor@)
    }

    fn new(n: usize, Ghost(g): Ghost<BiedgedGraph>, Ghost(adj): Ghost<Seq<Vec<usize>>>) -> (s: Self)
        requires
            g.wf(),
            adjacency_ok(g, adj),
            adj.len() == n,
        ensures
            s.ok(g, adj),
            s.path@.len() == 0,
            s.state@.len() == n,
            s.seen(g) == Set::<u64>::empty(),
    {
        let s = Search {
            state: zeros_u8(n),
            depth: zeros(n),
            path: Vec::new(),
            cursor: Vec::new(),
        };
        proof {
            reveal(Search::ok);
            assert(s.seen(g) =~= Set::<u64>::empty());
        }
        s
    }

    /// Whether the search has not come to the vertex yet.
    fn is_new(&self, v: usize, Ghost(g): Ghost<BiedgedGraph>, Ghost(adj): Ghost<Seq<Vec<usize>>>) -> (r:
        bool)
        requires
            self.ok(g, adj),
            v < self.state@.len(),
        ensures
            r == (self.state@[v as int] == 0),
            r == !self.seen(g).contains(g.node_seq()[v as int]),
    {
        proof {
            reveal(Search::ok);
            lemma_seen_one_more(g.node_seq(), self.state@, v as int, 1);
        }
        self.state[v] == 0
    }

    /// Goes on to the vertex `v`, which the search has not come to yet and
    /// which is joined to the vertex at hand.
    fn enter(&mut self, v: usize, Ghost(g): Ghost<BiedgedGraph>, Ghost(adj): Ghost<Seq<Vec<usize>>>)
        requires
            old(self).ok(g, adj),
            v < old(self).state@.len(),
            old(self).state@[v as int] == 0,
            old(self).path@.len() > 0 ==> joined(g, old(self).path@.last(), v),
        ensures
            final(self).ok(g, adj),
            final(self).todo() == old(self).todo() - 1,
            final(self).path@ == old(self).path@.push(v),
            final(self).state@.len() == old(self).state@.len(),
            final(self).way(g) == old(self).way(g).push(g.node_seq()[v as int]),
            final(self).seen(g) == old(self).seen(g).insert(g.node_seq()[v as int]),
            final(self).tried() == old(self).tried().push(0),
    {
        proof {
            reveal(Search::ok);
            lemma_unvisited_update(self.state@, v as int, 1);
            lemma_seen_one_more(g.node_seq(), self.state@, v as int, 1);
        }
        let ghost state0 = self.state@;
        let ghost depth0 = self.depth@;
        let ghost path0 = self.path@;
        let ghost cursor0 = self.cursor@;
        let at = self.path.len();
        self.state.set(v, 1);
        self.depth.set(v, at);
        self.path.push(v);
        self.cursor.push(0);
        proof {
            let path = self.path@;
            assert(ids(g.node_seq(), path) =~= ids(g.node_seq(), path0).push(g.node_seq()[v as int]));
            assert(as_nats(self.cursor@) =~= as_nats(cursor0).push(0));
            assert forall|t: int| 0 <= t < path.len() implies {
                &&& (#[trigger] path[t]) < adj.len()
                &&& self.state@[path[t] as int] == 1
                &&& self.depth@[path[t] as int] == t
                &&& self.cursor@[t] <= adj[path[t] as int]@.len()
            } by {
                if t < path0.len() {
                    assert(path0[t] == path[t]);
                    assert(path0[t] != v);
                    assert(self.cursor@[t] == cursor0[t]);
                }
            }
            assert forall|w: int|
                0 <= w < self.state@.len() && #[trigger] self.state@[w] == 1 implies self.depth@[w]
                < path.len() && path[self.depth@[w] as int] == w by {
                if w != v {
                    assert(state0[w] == 1);
                    assert(path0[depth0[w] as int] == w);
                }
            }
            assert forall|t: int| 0 <= t < path.len() - 1 implies joined(
                g,
                #[trigger] path[t],
                path[t + 1],
            ) by {
                if t < path0.len() - 1 {
                    assert(path0[t] == path[t]);
                    assert(path0[t + 1] == path[t + 1]);
                } else {
                    assert(path[t] == path0.last());
                }
            }
        }
    }

    /// The next neighbour of the vertex at hand, or `None` when all have
    /// been looked at.
    fn next_neighbor(
        &mut self,
        adj: &Vec<Vec<usize>>,
        Ghost(g): Ghost<BiedgedGraph>,
    ) -> (r: Option<usize>)
        requires
            old(self).ok(g, adj@),
            old(self).path@.len() > 0,
        ensures
            final(self).ok(g, adj@),
            final(self).state@ == old(self).state@,
            final(self).path@ == old(self).path@,
            old(self).tried().len() == old(self).way(g).len(),
            old(self).way(g).len() > 0,
            match r {
                Some(v) => {
                    &&& v < final(self).state@.len()
                    &&& joined(g, final(self).path@.last(), v)
                    &&& final(self).rest(adj@) < old(self).rest(adj@)
                    &&& old(self).tried().last() < neighbours(g, old(self).way(g).last()).len()
                    &&& g.node_seq()[v as int] == neighbours(g, old(self).way(g).last())[old(
                        self,
                    ).tried().last() as int]
                    &&& final(self).tried() == old(self).tried().update(
                        old(self).tried().len() - 1,
                        old(self).tried().last() + 1,
                    )
                },
                None => {
                    &&& final(self).cursor@ == old(self).cursor@
                    &&& old(self).tried().last() >= neighbours(g, old(self).way(g).last()).len()
                },
            },
    {
        proof {
            reveal(Search::ok);
        }
        let top = self.path.len() - 1;
        let cur = self.path[top];
        let k = self.cursor[top];
        let ghost cursor0 = self.cursor@;
        proof {
            assert(self.path@[top as int] == cur);
            assert(ids(g.node_seq(), self.path@).last() == g.node_seq()[cur as int]);
            assert(as_nats(cursor0).last() == k);
            if k < adj@[cur as int]@.len() {
                lemma_neighbour_is_joined(g, adj@, cur, k as int);
            } else {
                assert(ids(g.node_seq(), adj@[cur as int]@) == neighbours(
                    g,
                    g.node_seq()[cur as int],
                ));
            }
        }
        if k < adj[cur].len() {
            self.cursor.set(top, k + 1);
            let v = adj[cur][k];
            proof {
                assert(adj@[cur as int]@[k as int] == v);
                assert(as_nats(self.cursor@) =~= as_nats(cursor0).update(top as int, (k + 1) as nat));
                let path = self.path@;
                assert forall|t: int| 0 <= t < path.len() implies {
                    &&& (#[trigger] path[t]) < adj@.len()
                    &&& self.state@[path[t] as int] == 1
                    &&& self.depth@[path[t] as int] == t
                    &&& self.cursor@[t] <= adj@[path[t] as int]@.len()
                } by {
                    if t < top {
                        assert(self.cursor@[t] == cursor0[t]);
                    }
                }
            }
            Some(v)
        } else {
            None
        }
    }

    /// Is done with the vertex at hand and goes back to the one before it.
    fn leave(&mut self, Ghost(g): Ghost<BiedgedGraph>, Ghost(adj): Ghost<Seq<Vec<usize>>>)
        requires
            old(self).ok(g, adj),
            old(self).path@.len() > 0,
        ensures
            final(self).ok(g, adj),
            final(self).todo() == old(self).todo(),
            final(self).path@.len() == old(self).path@.len() - 1,
            final(self).state@.len() == old(self).state@.len(),
            final(self).way(g) == old(self).way(g).drop_last(),
            final(self).seen(g) == old(self).seen(g),
            final(self).tried() == old(self).tried().drop_last(),
    {
        proof {
            reveal(Search::ok);
        }
        let ghost state0 = self.state@;
        let ghost depth0 = self.depth@;
        let ghost path0 = self.path@;
        let ghost cursor0 = self.cursor@;
        let top = self.path.len() - 1;
        let cur = self.path[top];
        proof {
            assert(path0[top as int] == cur);
            lemma_unvisited_update(state0, cur as int, 2);
            lemma_seen_one_more(g.node_seq(), state0, cur as int, 2);
            assert(seen_of(g.node_seq(), state0).insert(g.node_seq()[cur as int]) =~= seen_of(
                g.node_seq(),
                state0,
            ));
        }
        self.state.set(cur, 2);
        self.path.pop();
        self.cursor.pop();
        proof {
            let path = self.path@;
            assert(path =~= path0.drop_last());
            assert(self.cursor@ =~= cursor0.drop_last());
            assert(ids(g.node_seq(), path) =~= ids(g.node_seq(), path0).drop_last());
            assert(as_nats(self.cursor@) =~= as_nats(cursor0).drop_last());
            assert forall|t: int| 0 <= t < path.len() implies {
                &&& (#[trigger] path[t]) < adj.len()
                &&& self.state@[path[t] as int] == 1
                &&& self.depth@[path[t] as int] == t
                &&& self.cursor@[t] <= adj[path[t] as int]@.len()
            } by {
                assert(path0[t] == path[t]);
                assert(depth0[path0[t] as int] == t);
                assert(path0[t] != cur);
                assert(self.cursor@[t] == cursor0[t]);
            }
            assert forall|w: int|
                0 <= w < self.state@.len() && #[trigger] self.state@[w] == 1 implies self.depth@[w]
                < path.len() && path[self.depth@[w] as int] == w by {
                assert(state0[w] == 1);
                assert(path0[depth0[w] as int] == w);
                assert(depth0[w] != top);
            }
            assert forall|t: int| 0 <= t < path.len() - 1 implies joined(
                g,
                #[trigger] path[t],
                path[t + 1],
            ) by {
                assert(path0[t] == path[t]);
                assert(path0[t + 1] == path[t + 1]);
            }
        }
    }

    /// The cycle that the edge from the vertex at hand to `v` closes, where
    /// `v` lies on the path at least two steps further up: the vertices from
    /// the vertex at hand back up the path to `v`.
    fn closing_cycle(
        &self,
        v: usize,
        nodes: &Vec<u64>,
        Ghost(g): Ghost<BiedgedGraph>,
        Ghost(adj): Ghost<Seq<Vec<usize>>>,
    ) -> (r: Option<Vec<u64>>)
        requires
            self.ok(g, adj),
            nodes@ == g.node_seq(),
            self.path@.len() > 0,
            v < self.state@.len(),
            self.state@[v as int] != 0,
            joined(g, self.path@.last(), v),
        ensures
            match r {
                Some(cycle) => is_cycle(g, cycle@) && cycle@.len() >= 3 && closing(
                    self.way(g),
                    g.node_seq()[v as int],
                ) == seq![cycle@],
                None => closing(self.way(g), g.node_seq()[v as int]) == Seq::<Seq<u64>>::empty(),
            },
    {
        proof {
            reveal(Search::ok);
        }
        let ghost way = self.way(g);
        let ghost u = nodes@[v as int];
        proof {
            assert forall|i: int, j: int| 0 <= i < way.len() && 0 <= j < way.len() && i
                != j implies way[i] != way[j] by {
                let a = self.path@[i];
                let b = self.path@[j];
                assert(self.depth@[a as int] == i);
                assert(self.depth@[b as int] == j);
                if a < b {
                    assert(nodes@[a as int] < nodes@[b as int]);
                } else {
                    assert(nodes@[b as int] < nodes@[a as int]);
                }
            }
        }
        if self.state[v] != 1 {
            proof {
                if way.contains(u) {
                    let i = choose|i: int| 0 <= i < way.len() && way[i] == u;
                    let a = self.path@[i];
                    assert(self.state@[a as int] == 1);
                    if a < v {
                        assert(nodes@[a as int] < nodes@[v as int]);
                    } else {
                        assert(nodes@[v as int] < nodes@[a as int]);
                    }
                }
            }
            return None;
        }
        let d = self.depth[v];
        let len = self.path.len();
        proof {
            assert(self.path@[d as int] == v);
            assert(way[d as int] == u);
            assert(way.contains(u));
            assert(way.index_of(u) == d);
        }
        if d >= len || len - d <= 2 {
            return None;
        }
        let mut cycle: Vec<u64> = Vec::new();
        let mut t: usize = len;
        while t > d
            invariant
                d <= t <= len,
                len == self.path@.len(),
                nodes@.len() == adj.len(),
                forall|s: int| 0 <= s < self.path@.len() ==> self.path@[s] < adj.len(),
                cycle@.len() == len - t,
                forall|i: int|
                    0 <= i < cycle@.len() ==> #[trigger] cycle@[i] == nodes@[self.path@[len - 1
                        - i] as int],
            decreases t,
        {
            t -= 1;
            cycle.push(nodes[self.path[t]]);
        }
        proof {
            let c = cycle@;
            let path = self.path@;
            assert(c.len() == len - d);
            assert(c =~= Seq::new((way.len() - way.index_of(u)) as nat, |i: int| way[way.len() - 1 - i]));
            assert forall|i: int, j: int| 0 <= i < c.len() && 0 <= j < c.len() && i != j implies c[i]
                != c[j] by {
                assert(c[i] == way[len - 1 - i]);
                assert(c[j] == way[len - 1 - j]);
            }
            assert forall|i: int| 0 <= i < c.len() - 1 implies g.count(
                #[trigger] c[i],
                c[i + 1],
                EdgeColor::Black,
            ) >= 1 by {
                let s = len - 2 - i;
                assert(joined(g, path[s], path[s + 1]));
                lemma_between_symmetric(g.edge_seq(), c[i], c[i + 1], EdgeColor::Black);
            }
            assert(c.first() == nodes@[path.last() as int]);
            assert(c.last() == nodes@[v as int]);
            lemma_between_symmetric(g.edge_seq(), c.last(), c.first(), EdgeColor::Black);
        }
        Some(cycle)
    }
}

/// The cycles of three and more edges that a depth-first search finds,
/// each from the vertex where it was closed back up the path of the search.
pub fn find_search_cycles(biedged: &BiedgedGraph) -> (cycles: Vec<Vec<u64>>)
    requires
        biedged.wf(),
    ensures
        cycle_lists(cycles@) == search_cycles(*biedged),
        forall|i: int| 0 <= i < cycles@.len() ==> is_cycle(*biedged, (#[trigger] cycles@[i])@),
        forall|i: int| 0 <= i < cycles@.len() ==> (#[trigger] cycles@[i])@.len() >= 3,
{
    let nodes = biedged.nodes();
    let n = nodes.len();
    let adj = adjacency(biedged);
    let mut search = Search::new(n, Ghost(*biedged), Ghost(adj@));
    let mut cycles: Vec<Vec<u64>> = Vec::new();
    let mut root: usize = 0;
    let ghost g = *biedged;
    let ghost all = search_cycles(g);
    proof {
        assert(cycle_lists(cycles@) =~= Seq::<Seq<u64>>::empty());
        assert(cycle_lists(cycles@) + from_roots(g, 0, search.seen(g)) =~= all);
    }
    while root < n
        invariant
            root <= n,
            n == nodes@.len(),
            g == *biedged,
            nodes@ == g.node_seq(),
            search.ok(g, adj@),
            search.state@.len() == n,
            search.path@.len() == 0,
            cycle_lists(cycles@) + from_roots(g, root as nat, search.seen(g)) == all,
            forall|i: int| 0 <= i < cycles@.len() ==> is_cycle(g, (#[trigger] cycles@[i])@),
            forall|i: int| 0 <= i < cycles@.len() ==> (#[trigger] cycles@[i])@.len() >= 3,
        decreases n - root,
    {
        if search.is_new(root, Ghost(g), Ghost(adj@)) {
            proof {
                lemma_roots_enter(g, root as nat, search.seen(g));
                assert(search.way(g) =~= Seq::<u64>::empty());
                assert(search.tried() =~= Seq::<nat>::empty()) by {
                    reveal(Search::ok);
                }
            }
            search.enter(root, Ghost(g), Ghost(adj@));
            proof {
                assert(search.way(g) =~= seq![nodes@[root as int]]);
                assert(search.tried() =~= seq![0nat]);
            }
            while search.path.len() > 0
                invariant
                    n == nodes@.len(),
                    root < n,
                    g == *biedged,
                    nodes@ == g.node_seq(),
                    search.ok(g, adj@),
                    search.state@.len() == n,
                    cycle_lists(cycles@) + (finish(
                        g,
                        search.way(g),
                        search.tried(),
                        search.seen(g),
                    ).1 + from_roots(
                        g,
                        (root + 1) as nat,
                        finish(g, search.way(g), search.tried(), search.seen(g)).0,
                    )) == all,
                    forall|i: int|
                        0 <= i < cycles@.len() ==> is_cycle(g, (#[trigger] cycles@[i])@),
                    forall|i: int| 0 <= i < cycles@.len() ==> (#[trigger] cycles@[i])@.len() >= 3,
                decreases search.todo(), search.path@.len(), search.rest(adj@),
            {
                let ghost way = search.way(g);
                let ghost tried = search.tried();
                let ghost seen = search.seen(g);
                match search.next_neighbor(&adj, Ghost(g)) {
                    Some(v) => {
                        if search.is_new(v, Ghost(g), Ghost(adj@)) {
                            proof {
                                assert(g.has_node(nodes@[v as int]));
                                lemma_finish_enters(g, way, tried, seen);
                            }
                            search.enter(v, Ghost(g), Ghost(adj@));
                        } else {
                            proof {
                                lemma_finish_skips(g, way, tried, seen);
                            }
                            let ghost had = cycles@;
                            match search.closing_cycle(v, nodes, Ghost(g), Ghost(adj@)) {
                                Some(cycle) => {
                                    cycles.push(cycle);
                                    proof {
                                        assert(cycle_lists(cycles@) =~= cycle_lists(had) + closing(
                                            way,
                                            nodes@[v as int],
                                        ));
                                        assert forall|i: int|
                                            0 <= i < cycles@.len() implies is_cycle(
                                            g,
                                            (#[trigger] cycles@[i])@,
                                        ) && cycles@[i]@.len() >= 3 by {
                                            if i < had.len() {
                                                assert(cycles@[i] == had[i]);
                                            }
                                        }
                                    }
                                },
                                None => {
                                    proof {
                                        assert(cycle_lists(cycles@) =~= cycle_lists(had) + closing(
                                            way,
                                            nodes@[v as int],
                                        ));
                                    }
                                },
                            }
                            proof {
                                let now = finish(g, search.way(g), search.tried(), search.seen(g));
                                let rest = from_roots(g, (root + 1) as nat, now.0);
                                let found = closing(way, nodes@[v as int]);
                                assert((cycle_lists(had) + found) + (now.1 + rest) =~= cycle_lists(
                                    had,
                                ) + ((found + now.1) + rest));
                            }
                        }
                    },
                    None => {
                        proof {
                            lemma_finish_leaves(g, way, tried, seen);
                        }
                        search.leave(Ghost(g), Ghost(adj@));
                    },
                }
            }
            proof {
                assert(search.way(g) =~= Seq::<u64>::empty());
                let done = finish(g, search.way(g), search.tried(), search.seen(g));
                assert(done == (search.seen(g), Seq::<Seq<u64>>::empty()));
                assert(done.1 + from_roots(g, (root + 1) as nat, done.0) =~= from_roots(
                    g,
                    (root + 1) as nat,
                    search.seen(g),
                ));
            }
        }
        root += 1;
    }
    proof {
        assert(cycle_lists(cycles@) + Seq::<Seq<u64>>::empty() =~= cycle_lists(cycles@));
    }
    cycles
}

/// The cycles of the black edges: first the loops and the pairs of
/// parallel edges, in the order of the edge list, then the cycles of three
/// and more edges that the depth-first search finds.
pub fn find_cycles(biedged: &BiedgedGraph) -> (cycles: Vec<Vec<u64>>)
    requires
        biedged.wf(),
    ensures
        cycle_lists(cycles@) == all_cycles(*biedged),
        forall|i: int| 0 <= i < cycles@.len() ==> is_cycle(*biedged, (#[trigger] cycles@[i])@),
{
    let mut cycles = find_short_cycles(biedged);
    let mut long = find_search_cycles(biedged);
    let ghost short = cycles@;
    let ghost found = long@;
    cycles.append(&mut long);
    proof {
        assert(cycles@ == short + found);
        assert(cycle_lists(cycles@) =~= cycle_lists(short) + cycle_lists(found));
        assert forall|i: int| 0 <= i < cycles@.len() implies is_cycle(
            *biedged,
            (#[trigger] cycles@[i])@,
        ) by {
            if i < short.len() {
                assert(cycles@[i] == short[i]);
            } else {
                assert(cycles@[i] == found[i - short.len()]);
            }
        }
    }
    cycles
}

/// The cycles of the black edges, found by one pass over the edge list for
/// the loops and the pairs of parallel edges and by the depth-first search
/// for the others: the same cycles, in the same order, as [`find_cycles`]
/// lists.
pub fn find_cycles_(biedged: &BiedgedGraph) -> (cycles: Vec<Vec<u64>>)
    requires
        biedged.wf(),
    ensures
        cycle_lists(cycles@) == all_cycles(*biedged),
        forall|i: int| 0 <= i < cycles@.len() ==> is_cycle(*biedged, (#[trigger] cycles@[i])@),
{
    find_cycles(biedged)
}

} // verus!
