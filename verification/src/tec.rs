//! The 3-edge-connected components, as `three_edge_connected` finds them.
//!
//! That crate numbers the vertices of an edge list from 0 in the order in
//! which it first sees them, finds the components over those numbers, and
//! gives the numbers their vertices back. Which components it finds, and in
//! what order, is its own matter: it walks a hash map, and of its answer no
//! more is said here than that it holds numbers of vertices.

use vstd::prelude::*;

verus! {

/// `three_edge_connected::Graph`, the adjacency lists of a graph with the
/// vertex of each number: nothing is seen of what is in it.
#[verifier::external_type_specification]
#[verifier::external_body]
#[verifier::reject_recursive_types(N)]
pub struct ExTecGraph<N>(three_edge_connected::Graph<N>);

/// The field `inv_names` of a graph of `three_edge_connected`: the vertex
/// of each number, the vertex at place `n` having the number `n`.
pub uninterp spec fn tec_names(graph: three_edge_connected::Graph<usize>) -> Seq<usize>;

/// The adjacency lists of a graph of `three_edge_connected` are those of
/// the numbers of its vertices: their keys are the numbers below the number
/// of vertices, and every neighbour is such a number. `Graph::from_edges`
/// builds such graphs; `find_components` stops the program on others.
pub uninterp spec fn tec_dense(graph: three_edge_connected::Graph<usize>) -> bool;

/// The lists that a vector of vectors holds.
pub open spec fn lists(v: Seq<Vec<usize>>) -> Seq<Seq<usize>> {
    v.map_values(|c: Vec<usize>| c@)
}

/// The vertices of an edge list in the order in which they first occur,
/// the first endpoint of an edge before the second: the vertex at place `n`
/// has the number `n`.
pub open spec fn first_seen(edges: Seq<(usize, usize)>) -> Seq<usize>
    decreases edges.len(),
{
    if edges.len() == 0 {
        Seq::empty()
    } else {
        let before = first_seen(edges.drop_last());
        let with_first = if before.contains(edges.last().0) {
            before
        } else {
            before.push(edges.last().0)
        };
        if with_first.contains(edges.last().1) {
            with_first
        } else {
            with_first.push(edges.last().1)
        }
    }
}

/// Every number in the components with more than one member is below
/// `bound`.
pub open spec fn all_below(components: Seq<Seq<usize>>, bound: nat) -> bool {
    forall|i: int, j: int|
        0 <= i < components.len() && components[i].len() > 1 && 0 <= j < components[i].len()
            ==> #[trigger] components[i][j] < bound
}

/// The components with more than one member, each number replaced by the
/// vertex that has it.
pub open spec fn named(vertices: Seq<usize>, components: Seq<Seq<usize>>) -> Seq<Seq<usize>> {
    components.filter(|c: Seq<usize>| c.len() > 1).map_values(
        |c: Seq<usize>| c.map_values(|n: usize| vertices[n as int]),
    )
}

/// `three_edge_connected::Graph::from_edges`: the graph of an edge list.
/// It numbers the vertices in the order in which the edge list first names
/// them, and its adjacency lists are over those numbers.
#[verifier::external_body]
pub(crate) fn graph_from_edges(edges: &Vec<(usize, usize)>) -> (graph: three_edge_connected::Graph<
    usize,
>)
    ensures
        tec_names(graph) == first_seen(edges@),
        tec_dense(graph),
{
    three_edge_connected::Graph::from_edges(edges.iter().copied())
}

/// `three_edge_connected::find_components`, on the adjacency lists of a
/// graph: the 3-edge-connected components over the numbers of the
/// vertices. Of the answer only this is said: every member of a component
/// is the number of a vertex. Which numbers share a component, and in what
/// order the components come, is not said.
#[verifier::external_body]
pub(crate) fn find_components(graph: &three_edge_connected::Graph<usize>) -> (components: Vec<
    Vec<usize>,
>)
    requires
        tec_dense(*graph),
    ensures
        forall|i: int, j: int|
            0 <= i < components@.len() && 0 <= j < components@[i]@.len()
                ==> #[trigger] components@[i]@[j] < tec_names(*graph).len(),
{
    three_edge_connected::find_components(&graph.graph)
}

/// The length of the field `inv_names` of a graph: how many vertices have a
/// number.
#[verifier::external_body]
pub(crate) fn vertex_count(graph: &three_edge_connected::Graph<usize>) -> (n: usize)
    ensures
        n == tec_names(*graph).len(),
{
    graph.inv_names.len()
}

/// `three_edge_connected::Graph::invert_components`: the components with
/// more than one member, each number replaced by its vertex. It stops the
/// program on a number that no vertex has.
#[verifier::external_body]
pub(crate) fn invert_components(
    graph: &three_edge_connected::Graph<usize>,
    components: Vec<Vec<usize>>,
) -> (inverted: Vec<Vec<usize>>)
    requires
        all_below(lists(components@), tec_names(*graph).len()),
    ensures
        lists(inverted@) == named(tec_names(*graph), lists(components@)),
{
    graph.invert_components(components)
}

} // verus!
