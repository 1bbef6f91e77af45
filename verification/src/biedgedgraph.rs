//! The biedged multigraph.
//!
//! The graph is a list of vertices in ascending order and a list of edge
//! records in ascending order of their endpoint pairs, with at most one
//! record for each pair. A record carries the number of black and of gray
//! edges between its endpoints, so parallel edges are multiplicities.

use crate::edge_sums::{
    between, between_images, lemma_edge_has_record, lemma_sum_insert, lemma_sum_pointwise, lemma_sum_prefix,
    lemma_sum_remove, lemma_sum_split, lemma_sum_update, lemma_sum_zero, of_color,
    of_color_between, of_color_between_images, same_pair, total,
};
pub use crate::edge_sums::{BiedgedEdge, BiedgedWeight, EdgeColor};
pub use crate::projection::{find_projection, projected_node_name, split_node_id};
use crate::seq_facts::lemma_take_one_more;
use vstd::prelude::*;

verus! {

/// Why a graph could not be built.
#[derive(Clone, Copy, PartialEq, Eq, Debug, Structural)]
pub enum GraphError {
    /// An edge names an endpoint that was never declared, or an endpoint
    /// whose id does not fit the `2n` / `2n + 1` encoding.
    InvalidGraph { endpoint: u64 },
}

/// Strictly ascending.
pub open spec fn ascending(s: Seq<u64>) -> bool {
    forall|i: int, j: int| 0 <= i < j < s.len() ==> s[i] < s[j]
}

/// Every record is written with `from <= to`, joins declared vertices and
/// stands for at least one edge.
pub open spec fn records_valid(nodes: Seq<u64>, edges: Seq<BiedgedEdge>) -> bool {
    forall|i: int|
        0 <= i < edges.len() ==> {
            let e = #[trigger] edges[i];
            &&& e.from <= e.to
            &&& nodes.contains(e.from)
            &&& nodes.contains(e.to)
            &&& (e.weight.black > 0 || e.weight.gray > 0)
        }
}

/// The records are in strictly ascending order of their endpoint pairs, so
/// no pair has two records.
pub open spec fn records_ascending(edges: Seq<BiedgedEdge>) -> bool {
    forall|i: int, j: int| 0 <= i < j < edges.len() ==> edges[i].before(edges[j])
}

/// In a valid edge list the record of a pair holds all the edges of that
/// pair.
pub proof fn lemma_record_holds_all(
    nodes: Seq<u64>,
    edges: Seq<BiedgedEdge>,
    i: int,
    u: u64,
    v: u64,
    color: EdgeColor,
)
    requires
        records_valid(nodes, edges),
        records_ascending(edges),
        0 <= i < edges.len(),
        edges[i].joins(u, v),
    ensures
        between(edges, u, v, color) == edges[i].weight.count(color),
{
    let f = of_color_between(u, v, color);
    lemma_sum_split(edges, i, f);
    let a = edges.take(i);
    let b = edges.skip(i + 1);
    assert forall|k: int| 0 <= k < a.len() implies f(#[trigger] a[k]) == 0 by {
        assert(a[k] == edges[k]);
        assert(edges[k].before(edges[i]));
    }
    assert forall|k: int| 0 <= k < b.len() implies f(#[trigger] b[k]) == 0 by {
        assert(b[k] == edges[k + i + 1]);
        assert(edges[i].before(edges[k + i + 1]));
    }
    lemma_sum_zero(a, f);
    lemma_sum_zero(b, f);
}

/// A pair without a record has no edges.
pub proof fn lemma_no_record_no_edge(edges: Seq<BiedgedEdge>, u: u64, v: u64, color: EdgeColor)
    requires
        forall|i: int| 0 <= i < edges.len() ==> !(#[trigger] edges[i]).joins(u, v),
    ensures
        between(edges, u, v, color) == 0,
{
    lemma_sum_zero(edges, of_color_between(u, v, color));
}

/// The place of the pair `(a, b)` in an edge list: the first record that
/// does not stand before it.
fn locate(edges: &Vec<BiedgedEdge>, a: u64, b: u64) -> (pos: usize)
    requires
        records_ascending(edges@),
        forall|k: int| 0 <= k < edges@.len() ==> (#[trigger] edges@[k]).from <= edges@[k].to,
        a <= b,
    ensures
        pos <= edges@.len(),
        forall|k: int|
            0 <= k < pos ==> (#[trigger] edges@[k]).from < a || (edges@[k].from == a && edges@[k].to
                < b),
        pos < edges@.len() ==> !(edges@[pos as int].from < a || (edges@[pos as int].from == a
            && edges@[pos as int].to < b)),
        forall|k: int| 0 <= k < edges@.len() && k != pos ==> !(#[trigger] edges@[k]).joins(a, b),
{
    let mut i: usize = 0;
    while i < edges.len() && (edges[i].from < a || (edges[i].from == a && edges[i].to < b))
        invariant
            i <= edges.len(),
            forall|k: int|
                0 <= k < i ==> (#[trigger] edges@[k]).from < a || (edges@[k].from == a
                    && edges@[k].to < b),
        decreases edges.len() - i,
    {
        i += 1;
    }
    proof {
        let s = edges@;
        assert forall|k: int| 0 <= k < s.len() && k != i implies !(#[trigger] s[k]).joins(a, b) by {
            if k > i {
                assert(s[i as int].before(s[k]));
            }
        }
    }
    i
}

/// Adds `w` to the weight of the edge between `u` and `v` in an edge list
/// over the vertices `nodes`.
fn put_record(
    edges: &mut Vec<BiedgedEdge>,
    Ghost(nodes): Ghost<Seq<u64>>,
    u: u64,
    v: u64,
    w: BiedgedWeight,
)
    requires
        records_valid(nodes, old(edges)@),
        records_ascending(old(edges)@),
        nodes.contains(u),
        nodes.contains(v),
        total(old(edges)@, EdgeColor::Black) + w.black <= usize::MAX,
        total(old(edges)@, EdgeColor::Gray) + w.gray <= usize::MAX,
    ensures
        records_valid(nodes, final(edges)@),
        records_ascending(final(edges)@),
        forall|x: u64, y: u64, color: EdgeColor|
            #[trigger] between(final(edges)@, x, y, color) == between(old(edges)@, x, y, color) + (
            if same_pair(u, v, x, y) {
                w.count(color)
            } else {
                0
            }),
        forall|color: EdgeColor|
            #[trigger] total(final(edges)@, color) == total(old(edges)@, color) + w.count(color),
        forall|p: spec_fn(u64) -> u64, x: u64, y: u64, color: EdgeColor|
            #[trigger] between_images(final(edges)@, p, x, y, color) == between_images(
                old(edges)@,
                p,
                x,
                y,
                color,
            ) + (if same_pair(p(u), p(v), x, y) {
                w.count(color)
            } else {
                0
            }),
{
    if w.is_empty() {
        return ;
    }
    let (a, b) = if u <= v {
        (u, v)
    } else {
        (v, u)
    };
    let pos = locate(edges, a, b);
    let ghost before = edges@;
    if pos < edges.len() && edges[pos].from == a && edges[pos].to == b {
        let had = edges[pos].weight;
        proof {
            lemma_sum_split(before, pos as int, of_color(EdgeColor::Black));
            lemma_sum_split(before, pos as int, of_color(EdgeColor::Gray));
        }
        let e = BiedgedEdge {
            from: a,
            to: b,
            weight: BiedgedWeight { black: had.black + w.black, gray: had.gray + w.gray },
        };
        edges.set(pos, e);
        proof {
            let after = edges@;
            assert(after == before.update(pos as int, e));
            assert forall|x: u64, y: u64, color: EdgeColor|
                between(after, x, y, color) == between(before, x, y, color) + (if same_pair(
                    u,
                    v,
                    x,
                    y,
                ) {
                    w.count(color)
                } else {
                    0
                }) by {
                lemma_sum_update(before, pos as int, e, of_color_between(x, y, color));
            }
            assert forall|color: EdgeColor|
                total(after, color) == total(before, color) + w.count(color) by {
                lemma_sum_update(before, pos as int, e, of_color(color));
            }
            assert forall|p: spec_fn(u64) -> u64, x: u64, y: u64, color: EdgeColor|
                #[trigger] between_images(after, p, x, y, color) == between_images(
                    before,
                    p,
                    x,
                    y,
                    color,
                ) + (if same_pair(p(u), p(v), x, y) {
                    w.count(color)
                } else {
                    0
                }) by {
                lemma_sum_update(before, pos as int, e, of_color_between_images(p, x, y, color));
            }
            assert(records_ascending(after)) by {
                assert forall|i: int, j: int| 0 <= i < j < after.len() implies after[i].before(
                    after[j],
                ) by {
                    assert(before[i].before(before[j]));
                }
            }
            assert(records_valid(nodes, after)) by {
                assert forall|i: int| 0 <= i < after.len() implies {
                    let r = #[trigger] after[i];
                    &&& r.from <= r.to
                    &&& nodes.contains(r.from)
                    &&& nodes.contains(r.to)
                    &&& (r.weight.black > 0 || r.weight.gray > 0)
                } by {
                    let r = before[i];
                    assert(r.from <= r.to);
                }
            }
        }
    } else {
        let e = BiedgedEdge { from: a, to: b, weight: w };
        edges.insert(pos, e);
        proof {
            let after = edges@;
            assert(after == before.insert(pos as int, e));
            assert forall|x: u64, y: u64, color: EdgeColor|
                between(after, x, y, color) == between(before, x, y, color) + (if same_pair(
                    u,
                    v,
                    x,
                    y,
                ) {
                    w.count(color)
                } else {
                    0
                }) by {
                lemma_sum_insert(before, pos as int, e, of_color_between(x, y, color));
            }
            assert forall|color: EdgeColor|
                total(after, color) == total(before, color) + w.count(color) by {
                lemma_sum_insert(before, pos as int, e, of_color(color));
            }
            assert forall|p: spec_fn(u64) -> u64, x: u64, y: u64, color: EdgeColor|
                #[trigger] between_images(after, p, x, y, color) == between_images(
                    before,
                    p,
                    x,
                    y,
                    color,
                ) + (if same_pair(p(u), p(v), x, y) {
                    w.count(color)
                } else {
                    0
                }) by {
                lemma_sum_insert(before, pos as int, e, of_color_between_images(p, x, y, color));
            }
            assert(records_ascending(after)) by {
                assert forall|i: int, j: int| 0 <= i < j < after.len() implies after[i].before(
                    after[j],
                ) by {
                    let ki = if i < pos { i } else { i - 1 };
                    let kj = if j < pos { j } else { j - 1 };
                    if i != pos && j != pos {
                        assert(before[ki].before(before[kj]));
                    } else if j == pos {
                        assert(after[i] == before[i]);
                    } else {
                        assert(after[j] == before[j - 1]);
                        if j - 1 > pos {
                            assert(before[pos as int].before(before[j - 1]));
                        }
                    }
                }
            }
            assert(records_valid(nodes, after)) by {
                assert forall|i: int| 0 <= i < after.len() implies {
                    let r = #[trigger] after[i];
                    &&& r.from <= r.to
                    &&& nodes.contains(r.from)
                    &&& nodes.contains(r.to)
                    &&& (r.weight.black > 0 || r.weight.gray > 0)
                } by {
                    if i < pos {
                        let r = before[i];
                        assert(r.from <= r.to);
                    } else if i > pos {
                        let r = before[i - 1];
                        assert(r.from <= r.to);
                    }
                }
            }
        }
    }
}

/// The map that sends `v` to `u` and leaves every other vertex alone.
pub open spec fn merge_map(u: u64, v: u64) -> spec_fn(u64) -> u64 {
    |a: u64|
        if a == v {
            u
        } else {
            a
        }
}

/// Taking one element out of an ascending sequence leaves an ascending
/// sequence with the other elements.
proof fn lemma_remove_ascending(s: Seq<u64>, i: int)
    requires
        ascending(s),
        0 <= i < s.len(),
    ensures
        ascending(s.remove(i)),
        forall|x: u64| s.remove(i).contains(x) <==> (s.contains(x) && x != s[i]),
{
    let t = s.remove(i);
    assert forall|a: int, b: int| 0 <= a < b < t.len() implies t[a] < t[b] by {
        let ka = if a < i { a } else { a + 1 };
        let kb = if b < i { b } else { b + 1 };
        assert(s[ka] < s[kb]);
    }
    assert forall|x: u64| t.contains(x) <==> (s.contains(x) && x != s[i]) by {
        if t.contains(x) {
            let k = choose|k: int| 0 <= k < t.len() && t[k] == x;
            let ks = if k < i { k } else { k + 1 };
            assert(s[ks] == x);
            if ks < i {
                assert(s[ks] < s[i]);
            } else {
                assert(s[i] < s[ks]);
            }
        }
        if s.contains(x) && x != s[i] {
            let k = choose|k: int| 0 <= k < s.len() && s[k] == x;
            if k < i {
                assert(t[k] == x);
            } else {
                assert(t[k - 1] == x);
            }
        }
    }
}

/// The vertex at the other end of a record from `v`, where the record is an
/// edge at `v`.
pub open spec fn other_end(e: BiedgedEdge, v: u64) -> Option<u64> {
    if e.from == v {
        Some(e.to)
    } else if e.to == v {
        Some(e.from)
    } else {
        None
    }
}

/// One of the first `upto` records is an edge of the colour between `v`
/// and `x`.
pub open spec fn seen_from(
    edges: Seq<BiedgedEdge>,
    upto: int,
    v: u64,
    color: EdgeColor,
    x: u64,
) -> bool {
    exists|t: int|
        0 <= t < upto && other_end(#[trigger] edges[t], v) == Some(x) && edges[t].weight.count(
            color,
        ) > 0
}

/// The records that hold an edge of the colour.
pub open spec fn has_color(color: EdgeColor) -> spec_fn(BiedgedEdge) -> bool {
    |e: BiedgedEdge| e.weight.count(color) > 0
}

/// The black edge of the sequence node `n`.
pub open spec fn segment_edge(n: u64) -> BiedgedEdge {
    BiedgedEdge {
        from: (2 * n) as u64,
        to: (2 * n + 1) as u64,
        weight: BiedgedWeight { black: 1, gray: 0 },
    }
}

/// The gray edge of a link between two endpoints.
pub open spec fn link_edge(link: (u64, u64)) -> BiedgedEdge {
    BiedgedEdge { from: link.0, to: link.1, weight: BiedgedWeight { black: 0, gray: 1 } }
}

/// The edges that a list of sequence nodes and a list of links stand for:
/// one black edge for each sequence node, one gray edge for each link.
pub open spec fn input_edges(segments: Seq<u64>, links: Seq<(u64, u64)>) -> Seq<BiedgedEdge> {
    segments.map_values(|n: u64| segment_edge(n)) + links.map_values(|l: (u64, u64)| link_edge(l))
}

/// Both endpoints of the sequence node have an id.
pub open spec fn segment_fits(n: u64) -> bool {
    2 * n + 1 <= u64::MAX
}

/// The endpoint is a side of one of the sequence nodes.
pub open spec fn declared(segments: Seq<u64>, endpoint: u64) -> bool {
    segments.contains(endpoint / 2)
}

/// Both endpoints of the link are sides of sequence nodes.
pub open spec fn link_fits(segments: Seq<u64>, link: (u64, u64)) -> bool {
    declared(segments, link.0) && declared(segments, link.1)
}

/// What is wrong with the input, if anything: the first sequence node that
/// does not fit, or else the first endpoint of a link that is no side of a
/// sequence node.
pub open spec fn input_fault(segments: Seq<u64>, links: Seq<(u64, u64)>, endpoint: u64) -> bool {
    ||| exists|i: int|
        {
            &&& 0 <= i < segments.len()
            &&& !segment_fits(#[trigger] segments[i])
            &&& endpoint == segments[i]
            &&& forall|k: int| 0 <= k < i ==> segment_fits(#[trigger] segments[k])
        }
    ||| {
        &&& forall|k: int| 0 <= k < segments.len() ==> segment_fits(#[trigger] segments[k])
        &&& exists|j: int|
            {
                &&& 0 <= j < links.len()
                &&& !link_fits(segments, #[trigger] links[j])
                &&& endpoint == (if declared(segments, links[j].0) {
                    links[j].1
                } else {
                    links[j].0
                })
                &&& forall|k: int| 0 <= k < j ==> link_fits(segments, #[trigger] links[k])
            }
    }
}

/// A biedged graph: a multigraph whose edges are black or gray.
pub struct BiedgedGraph {
    nodes: Vec<u64>,
    edges: Vec<BiedgedEdge>,
}

impl BiedgedGraph {
    /// The vertices, in ascending order.
    pub closed spec fn node_seq(&self) -> Seq<u64> {
        self.nodes@
    }

    /// The edge records, in ascending order of their endpoint pairs.
    pub closed spec fn edge_seq(&self) -> Seq<BiedgedEdge> {
        self.edges@
    }

    /// The invariant of the representation.
    pub open spec fn wf(&self) -> bool {
        &&& ascending(self.node_seq())
        &&& records_valid(self.node_seq(), self.edge_seq())
        &&& records_ascending(self.edge_seq())
        &&& total(self.edge_seq(), EdgeColor::Black) <= usize::MAX
        &&& total(self.edge_seq(), EdgeColor::Gray) <= usize::MAX
    }

    /// `v` is a vertex of the graph.
    pub open spec fn has_node(&self, v: u64) -> bool {
        self.node_seq().contains(v)
    }

    /// The number of edges of one colour between `u` and `v`.
    pub open spec fn count(&self, u: u64, v: u64, color: EdgeColor) -> nat {
        between(self.edge_seq(), u, v, color)
    }

    /// The number of edges of one colour, each with its multiplicity.
    pub open spec fn color_total(&self, color: EdgeColor) -> nat {
        total(self.edge_seq(), color)
    }

    /// The graph without vertices.
    pub fn new() -> (g: Self)
        ensures
            g.wf(),
            g.node_seq() == Seq::<u64>::empty(),
            g.edge_seq() == Seq::<BiedgedEdge>::empty(),
    {
        BiedgedGraph { nodes: Vec::new(), edges: Vec::new() }
    }

    /// The vertices, in ascending order.
    pub fn nodes(&self) -> (r: &Vec<u64>)
        ensures
            r@ == self.node_seq(),
    {
        &self.nodes
    }

    /// The edge records, in ascending order of their endpoint pairs.
    pub fn all_edges(&self) -> (r: &Vec<BiedgedEdge>)
        ensures
            r@ == self.edge_seq(),
    {
        &self.edges
    }

    pub fn node_count(&self) -> (r: usize)
        ensures
            r == self.node_seq().len(),
    {
        self.nodes.len()
    }

    /// The number of pairs of vertices that are joined by an edge: parallel
    /// edges count once.
    pub fn edge_count(&self) -> (r: usize)
        ensures
            r == self.edge_seq().len(),
    {
        self.edges.len()
    }

    pub fn contains_node(&self, v: u64) -> (r: bool)
        ensures
            r == self.has_node(v),
    {
        let mut i: usize = 0;
        while i < self.nodes.len()
            invariant
                i <= self.nodes.len(),
                forall|k: int| 0 <= k < i ==> self.nodes@[k] != v,
            decreases self.nodes.len() - i,
        {
            if self.nodes[i] == v {
                return true;
            }
            i += 1;
        }
        false
    }

    /// Adds the vertex `id`, unless it is there already.
    pub fn add_node(&mut self, id: u64) -> (r: u64)
        requires
            old(self).wf(),
        ensures
            r == id,
            final(self).wf(),
            final(self).edge_seq() == old(self).edge_seq(),
            forall|x: u64| final(self).has_node(x) <==> (old(self).has_node(x) || x == id),
            old(self).has_node(id) ==> final(self).node_seq() == old(self).node_seq(),
            !old(self).has_node(id) ==> final(self).node_seq().len() == old(self).node_seq().len()
                + 1,
    {
        let mut i: usize = 0;
        while i < self.nodes.len() && self.nodes[i] < id
            invariant
                i <= self.nodes.len(),
                *self == *old(self),
                forall|k: int| 0 <= k < i ==> self.nodes@[k] < id,
            decreases self.nodes.len() - i,
        {
            i += 1;
        }
        if i < self.nodes.len() && self.nodes[i] == id {
            return id;
        }
        let ghost before = self.nodes@;
        self.nodes.insert(i, id);
        proof {
            let after = self.nodes@;
            assert forall|x: u64| after.contains(x) <==> (before.contains(x) || x == id) by {
                if after.contains(x) {
                    let k = choose|k: int| 0 <= k < after.len() && after[k] == x;
                    if k < i {
                        assert(before[k] == x);
                    } else if k > i {
                        assert(before[k - 1] == x);
                    }
                }
                if before.contains(x) {
                    let k = choose|k: int| 0 <= k < before.len() && before[k] == x;
                    if k < i {
                        assert(after[k] == x);
                    } else {
                        assert(after[k + 1] == x);
                    }
                }
                if x == id {
                    assert(after[i as int] == x);
                }
            }
            assert(!before.contains(id)) by {
                if before.contains(id) {
                    let k = choose|k: int| 0 <= k < before.len() && before[k] == id;
                    if k > i {
                        assert(before[i as int] < before[k]);
                    }
                }
            }
            assert(ascending(after)) by {
                assert forall|a: int, b: int| 0 <= a < b < after.len() implies after[a] < after[b] by {
                    let ka = if a < i { a } else { a - 1 };
                    let kb = if b < i { b } else { b - 1 };
                    if a != i && b != i {
                        assert(before[ka] < before[kb]);
                    } else if b == i {
                        assert(after[a] == before[a]);
                    } else {
                        assert(after[b] == before[b - 1]);
                        if b - 1 > i {
                            assert(before[i as int] < before[b - 1]);
                        }
                    }
                }
            }
        }
        id
    }

    /// The weight of the edge between `u` and `v`: how many black and how
    /// many gray edges join them.
    pub fn edge_weight(&self, u: u64, v: u64) -> (w: BiedgedWeight)
        requires
            self.wf(),
        ensures
            w.black == self.count(u, v, EdgeColor::Black),
            w.gray == self.count(u, v, EdgeColor::Gray),
    {
        let (a, b) = if u <= v {
            (u, v)
        } else {
            (v, u)
        };
        let pos = locate(&self.edges, a, b);
        if pos < self.edges.len() && self.edges[pos].from == a && self.edges[pos].to == b {
            proof {
                lemma_record_holds_all(self.nodes@, self.edges@, pos as int, u, v, EdgeColor::Black);
                lemma_record_holds_all(self.nodes@, self.edges@, pos as int, u, v, EdgeColor::Gray);
            }
            self.edges[pos].weight
        } else {
            proof {
                lemma_no_record_no_edge(self.edges@, u, v, EdgeColor::Black);
                lemma_no_record_no_edge(self.edges@, u, v, EdgeColor::Gray);
            }
            BiedgedWeight::empty()
        }
    }

    /// Adds `w` to the weight of the edge between `u` and `v`. Both must be
    /// vertices of the graph. A self-loop is an edge like any other. The
    /// edges stated here fix the new edge list: `lemma_counts_fix_edges`.
    pub fn add_edge(&mut self, u: u64, v: u64, w: BiedgedWeight) -> (r: Result<(), GraphError>)
        requires
            old(self).wf(),
            old(self).color_total(EdgeColor::Black) + w.black <= usize::MAX,
            old(self).color_total(EdgeColor::Gray) + w.gray <= usize::MAX,
        ensures
            final(self).wf(),
            final(self).node_seq() == old(self).node_seq(),
            match r {
                Ok(_) => {
                    &&& old(self).has_node(u)
                    &&& old(self).has_node(v)
                    &&& forall|x: u64, y: u64, color: EdgeColor|
                        #[trigger] final(self).count(x, y, color) == old(self).count(x, y, color)
                            + (if same_pair(u, v, x, y) {
                            w.count(color)
                        } else {
                            0
                        })
                    &&& forall|color: EdgeColor|
                        #[trigger] final(self).color_total(color) == old(self).color_total(color)
                            + w.count(color)
                },
                Err(e) => {
                    &&& !(old(self).has_node(u) && old(self).has_node(v))
                    &&& e == (GraphError::InvalidGraph {
                        endpoint: if old(self).has_node(u) {
                            v
                        } else {
                            u
                        },
                    })
                    &&& *final(self) == *old(self)
                },
            },
    {
        if !self.contains_node(u) {
            return Err(GraphError::InvalidGraph { endpoint: u });
        }
        if !self.contains_node(v) {
            return Err(GraphError::InvalidGraph { endpoint: v });
        }
        put_record(&mut self.edges, Ghost(self.nodes@), u, v, w);
        Ok(())
    }

    /// The place of `v` in the vertex list.
    pub fn position_of(&self, v: u64) -> (r: Option<usize>)
        ensures
            match r {
                Some(i) => i < self.node_seq().len() && self.node_seq()[i as int] == v,
                None => !self.has_node(v),
            },
    {
        let mut i: usize = 0;
        while i < self.nodes.len()
            invariant
                i <= self.nodes.len(),
                forall|k: int| 0 <= k < i ==> self.nodes@[k] != v,
            decreases self.nodes.len() - i,
        {
            if self.nodes[i] == v {
                return Some(i);
            }
            i += 1;
        }
        None
    }

    /// Merges `v` into `u`: every edge at `v` becomes an edge at `u`, an
    /// edge between the two a self-loop at `u`, and `v` leaves the graph.
    /// Returns the vertex that is left, or `None`, with nothing changed,
    /// where `u` or `v` is no vertex of the graph. The vertices and edges
    /// stated here fix the new lists: `lemma_vertices_fix_nodes` and
    /// `lemma_counts_fix_edges`.
    pub fn merge_vertices(&mut self, u: u64, v: u64) -> (r: Option<u64>)
        requires
            old(self).wf(),
        ensures
            final(self).wf(),
            match r {
                Some(kept) => {
                    &&& kept == u
                    &&& old(self).has_node(u)
                    &&& old(self).has_node(v)
                    &&& forall|x: u64|
                        final(self).has_node(x) <==> (old(self).has_node(x) && (x != v || u == v))
                    &&& forall|x: u64, y: u64, color: EdgeColor|
                        #[trigger] final(self).count(x, y, color) == between_images(
                            old(self).edge_seq(),
                            merge_map(u, v),
                            x,
                            y,
                            color,
                        )
                    &&& forall|color: EdgeColor|
                        #[trigger] final(self).color_total(color) == old(self).color_total(color)
                    &&& u == v ==> final(self).node_seq() == old(self).node_seq()
                    &&& u != v ==> final(self).node_seq().len() + 1 == old(self).node_seq().len()
                },
                None => {
                    &&& !(old(self).has_node(u) && old(self).has_node(v))
                    &&& *final(self) == *old(self)
                },
            },
    {
        if !self.contains_node(u) {
            return None;
        }
        let at = match self.position_of(v) {
            Some(at) => at,
            None => {
                return None;
            },
        };
        let ghost m = merge_map(u, v);
        let ghost old_edges = self.edges@;
        let ghost old_nodes = self.nodes@;
        if u == v {
            proof {
                assert forall|x: u64, y: u64, color: EdgeColor|
                    between(old_edges, x, y, color) == between_images(
                        old_edges,
                        m,
                        x,
                        y,
                        color,
                    ) by {
                    lemma_sum_pointwise(
                        old_edges,
                        of_color_between(x, y, color),
                        of_color_between_images(m, x, y, color),
                    );
                }
            }
            return Some(u);
        }
        let ghost new_nodes = old_nodes.remove(at as int);
        proof {
            lemma_remove_ascending(old_nodes, at as int);
        }
        let mut merged: Vec<BiedgedEdge> = Vec::new();
        let mut k: usize = 0;
        proof {
            assert(old_edges.take(0) =~= Seq::<BiedgedEdge>::empty());
        }
        while k < self.edges.len()
            invariant
                k <= self.edges.len(),
                self.edges@ == old_edges,
                self.nodes@ == old_nodes,
                u != v,
                m == merge_map(u, v),
                old_nodes.contains(u),
                new_nodes == old_nodes.remove(at as int),
                old_nodes[at as int] == v,
                0 <= at < old_nodes.len(),
                forall|x: u64| new_nodes.contains(x) <==> (old_nodes.contains(x) && x != v),
                records_valid(old_nodes, old_edges),
                records_valid(new_nodes, merged@),
                records_ascending(merged@),
                total(old_edges, EdgeColor::Black) <= usize::MAX,
                total(old_edges, EdgeColor::Gray) <= usize::MAX,
                forall|x: u64, y: u64, color: EdgeColor|
                    #[trigger] between(merged@, x, y, color) == between_images(
                        old_edges.take(k as int),
                        m,
                        x,
                        y,
                        color,
                    ),
                forall|color: EdgeColor|
                    #[trigger] total(merged@, color) == total(old_edges.take(k as int), color),
            decreases self.edges.len() - k,
        {
            let e = self.edges[k];
            let a = if e.from == v {
                u
            } else {
                e.from
            };
            let b = if e.to == v {
                u
            } else {
                e.to
            };
            let ghost had = merged@;
            proof {
                assert(old_edges[k as int] == e);
                lemma_sum_prefix(old_edges, k as int, of_color(EdgeColor::Black));
                lemma_sum_prefix(old_edges, k as int + 1, of_color(EdgeColor::Black));
                lemma_sum_prefix(old_edges, k as int, of_color(EdgeColor::Gray));
                lemma_sum_prefix(old_edges, k as int + 1, of_color(EdgeColor::Gray));
                assert(total(had, EdgeColor::Black) == total(
                    old_edges.take(k as int),
                    EdgeColor::Black,
                ));
                assert(total(had, EdgeColor::Gray) == total(
                    old_edges.take(k as int),
                    EdgeColor::Gray,
                ));
            }
            put_record(&mut merged, Ghost(new_nodes), a, b, e.weight);
            proof {
                assert forall|x: u64, y: u64, color: EdgeColor|
                    #[trigger] between(merged@, x, y, color) == between_images(
                        old_edges.take(k as int + 1),
                        m,
                        x,
                        y,
                        color,
                    ) by {
                    lemma_sum_prefix(
                        old_edges,
                        k as int,
                        of_color_between_images(m, x, y, color),
                    );
                    assert(between(had, x, y, color) == between_images(
                        old_edges.take(k as int),
                        m,
                        x,
                        y,
                        color,
                    ));
                }
                assert forall|color: EdgeColor|
                    #[trigger] total(merged@, color) == total(
                        old_edges.take(k as int + 1),
                        color,
                    ) by {
                    lemma_sum_prefix(old_edges, k as int, of_color(color));
                    assert(total(had, color) == total(old_edges.take(k as int), color));
                }
            }
            k += 1;
        }
        proof {
            assert(old_edges.take(k as int) =~= old_edges);
        }
        self.edges = merged;
        self.nodes.remove(at);
        Some(u)
    }

    /// Contracts one edge of the given colour between `u` and `v`: the edge
    /// leaves the graph and `v` is merged into `u`. Returns the vertex that
    /// is left, or `None`, with nothing changed, where there is no such
    /// edge. The vertices and edges stated here fix the new lists:
    /// `lemma_vertices_fix_nodes` and `lemma_counts_fix_edges`.
    pub fn contract_edge(&mut self, u: u64, v: u64, color: EdgeColor) -> (r: Option<u64>)
        requires
            old(self).wf(),
        ensures
            final(self).wf(),
            match r {
                Some(kept) => {
                    &&& kept == u
                    &&& old(self).count(u, v, color) > 0
                    &&& old(self).has_node(u)
                    &&& old(self).has_node(v)
                    &&& forall|x: u64|
                        final(self).has_node(x) <==> (old(self).has_node(x) && (x != v || u == v))
                    &&& forall|x: u64, y: u64, c: EdgeColor|
                        #[trigger] final(self).count(x, y, c) == between_images(
                            old(self).edge_seq(),
                            merge_map(u, v),
                            x,
                            y,
                            c,
                        ) - (if c == color && x == u && y == u {
                            1int
                        } else {
                            0int
                        })
                    &&& forall|c: EdgeColor|
                        #[trigger] final(self).color_total(c) == old(self).color_total(c) - (if c
                            == color {
                            1int
                        } else {
                            0int
                        })
                    &&& u == v ==> final(self).node_seq() == old(self).node_seq()
                    &&& u != v ==> final(self).node_seq().len() + 1 == old(self).node_seq().len()
                },
                None => {
                    &&& old(self).count(u, v, color) == 0
                    &&& *final(self) == *old(self)
                },
            },
    {
        let (a, b) = if u <= v {
            (u, v)
        } else {
            (v, u)
        };
        let pos = locate(&self.edges, a, b);
        let ghost old_edges = self.edges@;
        let ghost m = merge_map(u, v);
        if !(pos < self.edges.len() && self.edges[pos].from == a && self.edges[pos].to == b) {
            proof {
                lemma_no_record_no_edge(old_edges, u, v, color);
            }
            return None;
        }
        let had = self.edges[pos];
        proof {
            lemma_record_holds_all(self.nodes@, old_edges, pos as int, u, v, color);
        }
        if had.weight.get(color) == 0 {
            return None;
        }
        let left = match color {
            EdgeColor::Black => BiedgedWeight { black: had.weight.black - 1, gray: had.weight.gray },
            EdgeColor::Gray => BiedgedWeight { black: had.weight.black, gray: had.weight.gray - 1 },
        };
        let ghost less = BiedgedEdge { from: a, to: b, weight: left };
        if left.is_empty() {
            self.edges.remove(pos);
            proof {
                let mid = self.edges@;
                assert(mid == old_edges.remove(pos as int));
                assert forall|x: u64, y: u64, c: EdgeColor|
                    between_images(mid, m, x, y, c) == between_images(old_edges, m, x, y, c) - (if c
                        == color && x == u && y == u {
                        1int
                    } else {
                        0int
                    }) by {
                    lemma_sum_remove(old_edges, pos as int, of_color_between_images(m, x, y, c));
                }
                assert forall|c: EdgeColor|
                    total(mid, c) == total(old_edges, c) - (if c == color {
                        1int
                    } else {
                        0int
                    }) by {
                    lemma_sum_remove(old_edges, pos as int, of_color(c));
                }
                assert(total(mid, EdgeColor::Black) <= total(old_edges, EdgeColor::Black));
                assert(total(mid, EdgeColor::Gray) <= total(old_edges, EdgeColor::Gray));
                assert(records_ascending(mid)) by {
                    assert forall|i: int, j: int| 0 <= i < j < mid.len() implies mid[i].before(
                        mid[j],
                    ) by {
                        let ki = if i < pos { i } else { i + 1 };
                        let kj = if j < pos { j } else { j + 1 };
                        assert(old_edges[ki].before(old_edges[kj]));
                    }
                }
                assert(records_valid(self.nodes@, mid)) by {
                    assert forall|i: int| 0 <= i < mid.len() implies {
                        let r = #[trigger] mid[i];
                        &&& r.from <= r.to
                        &&& self.nodes@.contains(r.from)
                        &&& self.nodes@.contains(r.to)
                        &&& (r.weight.black > 0 || r.weight.gray > 0)
                    } by {
                        let ki = if i < pos { i } else { i + 1 };
                        let r = old_edges[ki];
                        assert(r.from <= r.to);
                    }
                }
            }
        } else {
            self.edges.set(pos, BiedgedEdge { from: a, to: b, weight: left });
            proof {
                let mid = self.edges@;
                assert(mid == old_edges.update(pos as int, less));
                assert forall|x: u64, y: u64, c: EdgeColor|
                    between_images(mid, m, x, y, c) == between_images(old_edges, m, x, y, c) - (if c
                        == color && x == u && y == u {
                        1int
                    } else {
                        0int
                    }) by {
                    lemma_sum_update(
                        old_edges,
                        pos as int,
                        less,
                        of_color_between_images(m, x, y, c),
                    );
                }
                assert forall|c: EdgeColor|
                    total(mid, c) == total(old_edges, c) - (if c == color {
                        1int
                    } else {
                        0int
                    }) by {
                    lemma_sum_update(old_edges, pos as int, less, of_color(c));
                }
                assert(total(mid, EdgeColor::Black) <= total(old_edges, EdgeColor::Black));
                assert(total(mid, EdgeColor::Gray) <= total(old_edges, EdgeColor::Gray));
                assert(records_ascending(mid)) by {
                    assert forall|i: int, j: int| 0 <= i < j < mid.len() implies mid[i].before(
                        mid[j],
                    ) by {
                        assert(old_edges[i].before(old_edges[j]));
                    }
                }
                assert(records_valid(self.nodes@, mid)) by {
                    assert forall|i: int| 0 <= i < mid.len() implies {
                        let r = #[trigger] mid[i];
                        &&& r.from <= r.to
                        &&& self.nodes@.contains(r.from)
                        &&& self.nodes@.contains(r.to)
                        &&& (r.weight.black > 0 || r.weight.gray > 0)
                    } by {
                        let r = old_edges[i];
                        assert(r.from <= r.to);
                    }
                }
            }
        }
        proof {
            assert(old_edges[pos as int].joins(u, v));
            assert(self.nodes@.contains(u) && self.nodes@.contains(v));
        }
        let kept = self.merge_vertices(u, v);
        kept
    }

    /// The endpoints of the first record of the edge list that holds an edge
    /// of the given colour, or `None` where the graph has no such edge.
    pub fn first_edge_of(&self, color: EdgeColor) -> (r: Option<(u64, u64)>)
        requires
            self.wf(),
        ensures
            match r {
                Some((a, b)) => {
                    &&& a <= b
                    &&& self.has_node(a)
                    &&& self.has_node(b)
                    &&& self.count(a, b, color) > 0
                    &&& exists|i: int|
                        {
                            &&& 0 <= i < self.edge_seq().len()
                            &&& (#[trigger] self.edge_seq()[i]).from == a
                            &&& self.edge_seq()[i].to == b
                            &&& self.edge_seq()[i].weight.count(color) > 0
                            &&& forall|j: int|
                                0 <= j < i ==> (#[trigger] self.edge_seq()[j]).weight.count(color)
                                    == 0
                        }
                },
                None => self.color_total(color) == 0,
            },
    {
        let mut i: usize = 0;
        while i < self.edges.len()
            invariant
                i <= self.edges.len(),
                self.wf(),
                forall|j: int| 0 <= j < i ==> (#[trigger] self.edges@[j]).weight.count(color) == 0,
            decreases self.edges.len() - i,
        {
            let e = self.edges[i];
            if e.weight.get(color) > 0 {
                proof {
                    lemma_record_holds_all(self.nodes@, self.edges@, i as int, e.from, e.to, color);
                    assert(self.edges@[i as int].from == e.from);
                }
                return Some((e.from, e.to));
            }
            i += 1;
        }
        proof {
            lemma_sum_zero(self.edges@, of_color(color));
        }
        None
    }

    /// The graph of a list of sequence nodes and a list of links: sequence
    /// node `n` has the endpoints `2n` and `2n + 1` and a black edge between
    /// them, and a link is a gray edge between two endpoints. The input is
    /// refused where a sequence node has no room for its endpoints, or a
    /// link names an endpoint of no sequence node.
    pub fn from_segments(segments: &Vec<u64>, links: &Vec<(u64, u64)>) -> (r: Result<
        Self,
        GraphError,
    >)
        ensures
            match r {
                Ok(g) => {
                    &&& g.wf()
                    &&& forall|i: int|
                        0 <= i < segments@.len() ==> segment_fits(#[trigger] segments@[i])
                    &&& forall|j: int|
                        0 <= j < links@.len() ==> link_fits(segments@, #[trigger] links@[j])
                    &&& forall|x: u64| g.has_node(x) <==> declared(segments@, x)
                    &&& forall|x: u64, y: u64, color: EdgeColor|
                        #[trigger] g.count(x, y, color) == between(
                            input_edges(segments@, links@),
                            x,
                            y,
                            color,
                        )
                    &&& forall|p: spec_fn(u64) -> u64, x: u64, y: u64, color: EdgeColor|
                        #[trigger] between_images(g.edge_seq(), p, x, y, color) == between_images(
                            input_edges(segments@, links@),
                            p,
                            x,
                            y,
                            color,
                        )
                    &&& g.color_total(EdgeColor::Black) == segments@.len()
                    &&& g.color_total(EdgeColor::Gray) == links@.len()
                },
                Err(GraphError::InvalidGraph { endpoint }) => input_fault(
                    segments@,
                    links@,
                    endpoint,
                ),
            },
    {
        let ghost all = input_edges(segments@, links@);
        let mut g = BiedgedGraph::new();
        let mut i: usize = 0;
        proof {
            assert(all.take(0) =~= Seq::<BiedgedEdge>::empty());
            assert(segments@.take(0) =~= Seq::<u64>::empty());
        }
        while i < segments.len()
            invariant
                i <= segments.len(),
                all == input_edges(segments@, links@),
                g.wf(),
                forall|k: int| 0 <= k < i ==> segment_fits(#[trigger] segments@[k]),
                forall|x: u64| g.has_node(x) <==> declared(segments@.take(i as int), x),
                forall|x: u64, y: u64, color: EdgeColor|
                    #[trigger] between(g.edges@, x, y, color) == between(
                        all.take(i as int),
                        x,
                        y,
                        color,
                    ),
                forall|p: spec_fn(u64) -> u64, x: u64, y: u64, color: EdgeColor|
                    #[trigger] between_images(g.edges@, p, x, y, color) == between_images(
                        all.take(i as int),
                        p,
                        x,
                        y,
                        color,
                    ),
                total(g.edges@, EdgeColor::Black) == i,
                total(g.edges@, EdgeColor::Gray) == 0,
            decreases segments.len() - i,
        {
            let n = segments[i];
            if n > (u64::MAX - 1) / 2 {
                return Err(GraphError::InvalidGraph { endpoint: n });
            }
            let left = 2 * n;
            let right = left + 1;
            let ghost had = g;
            g.add_node(left);
            g.add_node(right);
            proof {
                assert(all[i as int] == segment_edge(n));
            }
            put_record(&mut g.edges, Ghost(g.nodes@), left, right, BiedgedWeight::black(1));
            proof {
                assert forall|x: u64| g.has_node(x) <==> declared(
                    segments@.take(i as int + 1),
                    x,
                ) by {
                    lemma_take_one_more(segments@, i as int, x / 2);
                    assert(had.has_node(x) <==> declared(segments@.take(i as int), x));
                }
                assert forall|x: u64, y: u64, color: EdgeColor| #[trigger]
                    between(g.edges@, x, y, color) == between(
                        all.take(i as int + 1),
                        x,
                        y,
                        color,
                    ) by {
                    lemma_sum_prefix(all, i as int, of_color_between(x, y, color));
                    assert(between(had.edges@, x, y, color) == between(
                        all.take(i as int),
                        x,
                        y,
                        color,
                    ));
                }
                assert forall|p: spec_fn(u64) -> u64, x: u64, y: u64, color: EdgeColor| #[trigger]
                    between_images(g.edges@, p, x, y, color) == between_images(
                        all.take(i as int + 1),
                        p,
                        x,
                        y,
                        color,
                    ) by {
                    lemma_sum_prefix(all, i as int, of_color_between_images(p, x, y, color));
                    assert(between_images(had.edges@, p, x, y, color) == between_images(
                        all.take(i as int),
                        p,
                        x,
                        y,
                        color,
                    ));
                }
                assert(total(g.edges@, EdgeColor::Black) == total(had.edges@, EdgeColor::Black)
                    + 1);
                assert(total(g.edges@, EdgeColor::Gray) == total(had.edges@, EdgeColor::Gray) + 0);
            }
            i += 1;
        }
        proof {
            assert(segments@.take(i as int) =~= segments@);
        }
        let mut j: usize = 0;
        while j < links.len()
            invariant
                j <= links.len(),
                i == segments.len(),
                all == input_edges(segments@, links@),
                g.wf(),
                forall|k: int| 0 <= k < segments@.len() ==> segment_fits(#[trigger] segments@[k]),
                forall|k: int| 0 <= k < j ==> link_fits(segments@, #[trigger] links@[k]),
                forall|x: u64| g.has_node(x) <==> declared(segments@, x),
                forall|x: u64, y: u64, color: EdgeColor|
                    #[trigger] between(g.edges@, x, y, color) == between(
                        all.take(i as int + j as int),
                        x,
                        y,
                        color,
                    ),
                forall|p: spec_fn(u64) -> u64, x: u64, y: u64, color: EdgeColor|
                    #[trigger] between_images(g.edges@, p, x, y, color) == between_images(
                        all.take(i as int + j as int),
                        p,
                        x,
                        y,
                        color,
                    ),
                total(g.edges@, EdgeColor::Black) == i,
                total(g.edges@, EdgeColor::Gray) == j,
            decreases links.len() - j,
        {
            let (a, b) = links[j];
            if !g.contains_node(a) {
                return Err(GraphError::InvalidGraph { endpoint: a });
            }
            if !g.contains_node(b) {
                return Err(GraphError::InvalidGraph { endpoint: b });
            }
            let ghost had = g;
            proof {
                assert(all[i as int + j as int] == link_edge(links@[j as int]));
            }
            put_record(&mut g.edges, Ghost(g.nodes@), a, b, BiedgedWeight::gray(1));
            proof {
                assert forall|x: u64, y: u64, color: EdgeColor| #[trigger]
                    between(g.edges@, x, y, color) == between(
                        all.take(i as int + j as int + 1),
                        x,
                        y,
                        color,
                    ) by {
                    lemma_sum_prefix(all, i as int + j as int, of_color_between(x, y, color));
                    assert(between(had.edges@, x, y, color) == between(
                        all.take(i as int + j as int),
                        x,
                        y,
                        color,
                    ));
                }
                assert forall|p: spec_fn(u64) -> u64, x: u64, y: u64, color: EdgeColor| #[trigger]
                    between_images(g.edges@, p, x, y, color) == between_images(
                        all.take(i as int + j as int + 1),
                        p,
                        x,
                        y,
                        color,
                    ) by {
                    lemma_sum_prefix(
                        all,
                        i as int + j as int,
                        of_color_between_images(p, x, y, color),
                    );
                    assert(between_images(had.edges@, p, x, y, color) == between_images(
                        all.take(i as int + j as int),
                        p,
                        x,
                        y,
                        color,
                    ));
                }
                assert(total(g.edges@, EdgeColor::Black) == total(had.edges@, EdgeColor::Black)
                    + 0);
                assert(total(g.edges@, EdgeColor::Gray) == total(had.edges@, EdgeColor::Gray) + 1);
                assert(g.nodes@ == had.nodes@);
                assert forall|x: u64| g.has_node(x) <==> declared(segments@, x) by {
                    assert(had.has_node(x) <==> declared(segments@, x));
                }
            }
            j += 1;
        }
        proof {
            assert(all.take(i as int + j as int) =~= all);
        }
        Ok(g)
    }

    /// The records that hold an edge of the colour, in the order of the
    /// edge list.
    pub fn edges_of(&self, color: EdgeColor) -> (r: Vec<BiedgedEdge>)
        ensures
            r@ == self.edge_seq().filter(has_color(color)),
    {
        let mut r: Vec<BiedgedEdge> = Vec::new();
        let mut k: usize = 0;
        proof {
            reveal(Seq::filter);
            assert(self.edges@.take(0) =~= Seq::<BiedgedEdge>::empty());
        }
        while k < self.edges.len()
            invariant
                k <= self.edges.len(),
                r@ == self.edges@.take(k as int).filter(has_color(color)),
            decreases self.edges.len() - k,
        {
            let e = self.edges[k];
            proof {
                assert(self.edges@.take(k as int + 1) =~= self.edges@.take(k as int).push(e));
                self.edges@.take(k as int).lemma_filter_push(e, has_color(color));
            }
            if e.weight.get(color) > 0 {
                r.push(e);
            }
            k += 1;
        }
        proof {
            assert(self.edges@.take(k as int) =~= self.edges@);
        }
        r
    }

    /// The records that hold a gray edge.
    pub fn gray_edges(&self) -> (r: Vec<BiedgedEdge>)
        ensures
            r@ == self.edge_seq().filter(has_color(EdgeColor::Gray)),
    {
        self.edges_of(EdgeColor::Gray)
    }

    /// The records that hold a black edge.
    pub fn black_edges(&self) -> (r: Vec<BiedgedEdge>)
        ensures
            r@ == self.edge_seq().filter(has_color(EdgeColor::Black)),
    {
        self.edges_of(EdgeColor::Black)
    }

    /// The vertices that an edge of the colour joins to `v`, in ascending
    /// order; `v` itself is among them where it has a loop.
    pub fn neighbors_of(&self, v: u64, color: EdgeColor) -> (r: Vec<u64>)
        requires
            self.wf(),
        ensures
            ascending(r@),
            forall|x: u64| r@.contains(x) <==> self.count(v, x, color) > 0,
    {
        let mut list: Vec<u64> = Vec::new();
        let mut k: usize = 0;
        while k < self.edges.len()
            invariant
                k <= self.edges.len(),
                self.wf(),
                ascending(list@),
                forall|i: int|
                    0 <= i < list@.len() ==> seen_from(
                        self.edges@,
                        k as int,
                        v,
                        color,
                        #[trigger] list@[i],
                    ),
                forall|t: int|
                    0 <= t < k && other_end(#[trigger] self.edges@[t], v) is Some
                        && self.edges@[t].weight.count(color) > 0 ==> list@.contains(
                        other_end(self.edges@[t], v).unwrap(),
                    ),
            decreases self.edges.len() - k,
        {
            let e = self.edges[k];
            if e.weight.get(color) > 0 && (e.from == v || e.to == v) {
                let other = if e.from == v {
                    e.to
                } else {
                    e.from
                };
                let ghost had = list@;
                proof {
                    assert forall|i: int| 0 <= i < had.len() implies #[trigger] had[i] < other by {
                        assert(seen_from(self.edges@, k as int, v, color, had[i]));
                        let t = choose|t: int|
                            0 <= t < k && other_end(#[trigger] self.edges@[t], v) == Some(had[i])
                                && self.edges@[t].weight.count(color) > 0;
                        assert(self.edges@[t].before(self.edges@[k as int]));
                        assert(self.edges@[t].from <= self.edges@[t].to);
                        assert(e.from <= e.to);
                    }
                }
                list.push(other);
                proof {
                    assert(list@[had.len() as int] == other);
                    assert forall|i: int| 0 <= i < list@.len() implies seen_from(
                        self.edges@,
                        k as int + 1,
                        v,
                        color,
                        #[trigger] list@[i],
                    ) by {
                        if i < had.len() {
                            assert(seen_from(self.edges@, k as int, v, color, had[i]));
                            let t = choose|t: int|
                                0 <= t < k && other_end(#[trigger] self.edges@[t], v) == Some(
                                    had[i],
                                ) && self.edges@[t].weight.count(color) > 0;
                            assert(other_end(self.edges@[t], v) == Some(list@[i]));
                        } else {
                            assert(other_end(self.edges@[k as int], v) == Some(list@[i]));
                        }
                    }
                    assert forall|t: int|
                        0 <= t < k + 1 && other_end(#[trigger] self.edges@[t], v) is Some
                            && self.edges@[t].weight.count(color) > 0 implies list@.contains(
                        other_end(self.edges@[t], v).unwrap(),
                    ) by {
                        if t < k {
                            let x = other_end(self.edges@[t], v).unwrap();
                            assert(had.contains(x));
                            let i = choose|i: int| 0 <= i < had.len() && had[i] == x;
                            assert(list@[i] == x);
                        }
                    }
                }
            }
            proof {
                assert forall|i: int| 0 <= i < list@.len() implies seen_from(
                    self.edges@,
                    k as int + 1,
                    v,
                    color,
                    #[trigger] list@[i],
                ) by {
                    if seen_from(self.edges@, k as int, v, color, list@[i]) {
                        let t = choose|t: int|
                            0 <= t < k && other_end(#[trigger] self.edges@[t], v) == Some(list@[i])
                                && self.edges@[t].weight.count(color) > 0;
                        assert(0 <= t < k + 1);
                    }
                }
            }
            k += 1;
        }
        proof {
            assert forall|x: u64| list@.contains(x) <==> self.count(v, x, color) > 0 by {
                if list@.contains(x) {
                    let i = choose|i: int| 0 <= i < list@.len() && list@[i] == x;
                    assert(seen_from(self.edges@, k as int, v, color, list@[i]));
                    let t = choose|t: int|
                        0 <= t < k && other_end(#[trigger] self.edges@[t], v) == Some(list@[i])
                            && self.edges@[t].weight.count(color) > 0;
                    lemma_record_holds_all(self.nodes@, self.edges@, t, v, x, color);
                }
                if self.count(v, x, color) > 0 {
                    let t = lemma_edge_has_record(self.edges@, v, x, color);
                    assert(other_end(self.edges@[t], v) == Some(x));
                }
            }
        }
        list
    }

    /// The number of edges of one colour, each with its multiplicity.
    pub fn edge_count_of(&self, color: EdgeColor) -> (r: usize)
        requires
            self.wf(),
        ensures
            r == self.color_total(color),
    {
        let mut sum: usize = 0;
        let mut i: usize = 0;
        while i < self.edges.len()
            invariant
                i <= self.edges.len(),
                sum == total(self.edges@.take(i as int), color),
                total(self.edges@, color) <= usize::MAX,
            decreases self.edges.len() - i,
        {
            proof {
                lemma_sum_prefix(self.edges@, i as int, of_color(color));
                lemma_sum_prefix(self.edges@, i as int + 1, of_color(color));
            }
            sum = sum + self.edges[i].weight.get(color);
            i += 1;
        }
        proof {
            lemma_sum_prefix(self.edges@, i as int, of_color(color));
        }
        sum
    }

    /// The number of black edges, each with its multiplicity.
    pub fn black_edge_count(&self) -> (r: usize)
        requires
            self.wf(),
        ensures
            r == self.color_total(EdgeColor::Black),
    {
        self.edge_count_of(EdgeColor::Black)
    }

    /// The number of gray edges, each with its multiplicity.
    pub fn gray_edge_count(&self) -> (r: usize)
        requires
            self.wf(),
        ensures
            r == self.color_total(EdgeColor::Gray),
    {
        self.edge_count_of(EdgeColor::Gray)
    }
}

/// A valid edge list is fixed by its edges: two valid edge lists with the
/// same edges of each colour between every two vertices are the same list.
pub proof fn lemma_counts_fix_records(
    nodes_a: Seq<u64>,
    a: Seq<BiedgedEdge>,
    nodes_b: Seq<u64>,
    b: Seq<BiedgedEdge>,
)
    requires
        records_valid(nodes_a, a),
        records_ascending(a),
        records_valid(nodes_b, b),
        records_ascending(b),
        forall|x: u64, y: u64, c: EdgeColor| #[trigger] between(a, x, y, c) == between(b, x, y, c),
    ensures
        a == b,
    decreases a.len(),
{
    if a.len() == 0 {
        if b.len() > 0 {
            let e = b[0];
            let c = if e.weight.black > 0 {
                EdgeColor::Black
            } else {
                EdgeColor::Gray
            };
            lemma_record_holds_all(nodes_b, b, 0, e.from, e.to, c);
            assert(between(a, e.from, e.to, c) == between(b, e.from, e.to, c));
        }
        assert(a =~= b);
    } else {
        let la = a[a.len() - 1];
        let ca = if la.weight.black > 0 {
            EdgeColor::Black
        } else {
            EdgeColor::Gray
        };
        lemma_record_holds_all(nodes_a, a, a.len() - 1, la.from, la.to, ca);
        assert(between(a, la.from, la.to, ca) == between(b, la.from, la.to, ca));
        let j = lemma_edge_has_record(b, la.from, la.to, ca);
        assert(b[j].from <= b[j].to);
        let lb = b[b.len() - 1];
        let cb = if lb.weight.black > 0 {
            EdgeColor::Black
        } else {
            EdgeColor::Gray
        };
        lemma_record_holds_all(nodes_b, b, b.len() - 1, lb.from, lb.to, cb);
        assert(between(a, lb.from, lb.to, cb) == between(b, lb.from, lb.to, cb));
        let i = lemma_edge_has_record(a, lb.from, lb.to, cb);
        assert(a[i].from <= a[i].to);
        if j < b.len() - 1 {
            assert(b[j].before(b[b.len() - 1]));
            if i < a.len() - 1 {
                assert(a[i].before(a[a.len() - 1]));
            }
        }
        assert(la.from == lb.from && la.to == lb.to);
        lemma_record_holds_all(nodes_a, a, a.len() - 1, la.from, la.to, EdgeColor::Black);
        lemma_record_holds_all(nodes_b, b, b.len() - 1, la.from, la.to, EdgeColor::Black);
        lemma_record_holds_all(nodes_a, a, a.len() - 1, la.from, la.to, EdgeColor::Gray);
        lemma_record_holds_all(nodes_b, b, b.len() - 1, la.from, la.to, EdgeColor::Gray);
        assert(between(a, la.from, la.to, EdgeColor::Black) == between(
            b,
            la.from,
            la.to,
            EdgeColor::Black,
        ));
        assert(between(a, la.from, la.to, EdgeColor::Gray) == between(
            b,
            la.from,
            la.to,
            EdgeColor::Gray,
        ));
        assert(la.weight.black == lb.weight.black && la.weight.gray == lb.weight.gray);
        assert(la == lb);
        let af = a.drop_last();
        let bf = b.drop_last();
        assert(records_valid(nodes_a, af)) by {
            assert forall|k: int| 0 <= k < af.len() implies {
                let e = #[trigger] af[k];
                &&& e.from <= e.to
                &&& nodes_a.contains(e.from)
                &&& nodes_a.contains(e.to)
                &&& (e.weight.black > 0 || e.weight.gray > 0)
            } by {
                let e = a[k];
                assert(e.from <= e.to);
            }
        }
        assert(records_valid(nodes_b, bf)) by {
            assert forall|k: int| 0 <= k < bf.len() implies {
                let e = #[trigger] bf[k];
                &&& e.from <= e.to
                &&& nodes_b.contains(e.from)
                &&& nodes_b.contains(e.to)
                &&& (e.weight.black > 0 || e.weight.gray > 0)
            } by {
                let e = b[k];
                assert(e.from <= e.to);
            }
        }
        assert(records_ascending(af)) by {
            assert forall|k: int, l: int| 0 <= k < l < af.len() implies af[k].before(af[l]) by {
                assert(a[k].before(a[l]));
            }
        }
        assert(records_ascending(bf)) by {
            assert forall|k: int, l: int| 0 <= k < l < bf.len() implies bf[k].before(bf[l]) by {
                assert(b[k].before(b[l]));
            }
        }
        assert forall|x: u64, y: u64, c: EdgeColor| #[trigger]
            between(af, x, y, c) == between(bf, x, y, c) by {
            assert(between(a, x, y, c) == between(b, x, y, c));
            assert(between(a, x, y, c) == between(af, x, y, c) + of_color_between(x, y, c)(
                a.last(),
            ));
            assert(between(b, x, y, c) == between(bf, x, y, c) + of_color_between(x, y, c)(
                b.last(),
            ));
        }
        lemma_counts_fix_records(nodes_a, af, nodes_b, bf);
        assert(a =~= af.push(la));
        assert(b =~= bf.push(lb));
    }
}

/// The edge list of a graph is fixed by its edges: two graphs with the same
/// edges of each colour between every two vertices have the same edge list.
pub proof fn lemma_counts_fix_edges(a: BiedgedGraph, b: BiedgedGraph)
    requires
        a.wf(),
        b.wf(),
        forall|x: u64, y: u64, c: EdgeColor| #[trigger] a.count(x, y, c) == b.count(x, y, c),
    ensures
        a.edge_seq() == b.edge_seq(),
{
    assert forall|x: u64, y: u64, c: EdgeColor| #[trigger]
        between(a.edge_seq(), x, y, c) == between(b.edge_seq(), x, y, c) by {
        assert(a.count(x, y, c) == b.count(x, y, c));
    }
    lemma_counts_fix_records(a.node_seq(), a.edge_seq(), b.node_seq(), b.edge_seq());
}

/// The vertex list of a graph is fixed by its vertices: two graphs with the
/// same vertices have the same vertex list.
pub proof fn lemma_vertices_fix_nodes(a: BiedgedGraph, b: BiedgedGraph)
    requires
        a.wf(),
        b.wf(),
        forall|x: u64| a.has_node(x) == b.has_node(x),
    ensures
        a.node_seq() == b.node_seq(),
{
    assert forall|x: u64| a.node_seq().contains(x) <==> b.node_seq().contains(x) by {
        assert(a.has_node(x) == b.has_node(x));
    }
    crate::search::lemma_ascending_same(a.node_seq(), b.node_seq());
}

} // verus!
