use cactusgraph::biedgedgraph::{BiedgedGraph, GraphError};
use cactusgraph::edge_sums::{BiedgedEdge, BiedgedWeight, EdgeColor};
use cactusgraph::projection::{find_projection, projected_node_name, split_node_id};
use std::collections::BTreeMap;

fn square() -> BiedgedGraph {
    let mut graph = BiedgedGraph::new();
    for v in [4u64, 2, 8, 6] {
        graph.add_node(v);
    }
    graph.add_edge(2, 4, BiedgedWeight::black(1)).unwrap();
    graph.add_edge(6, 4, BiedgedWeight::gray(1)).unwrap();
    graph.add_edge(6, 8, BiedgedWeight::black(2)).unwrap();
    graph.add_edge(8, 2, BiedgedWeight::gray(3)).unwrap();
    graph
}

#[test]
fn vertices_are_kept_in_ascending_order() {
    let mut graph = square();
    assert_eq!(graph.nodes(), &vec![2u64, 4, 6, 8]);
    assert_eq!(graph.add_node(4), 4);
    assert_eq!(graph.node_count(), 4);
    assert_eq!(graph.add_node(5), 5);
    assert_eq!(graph.nodes(), &vec![2u64, 4, 5, 6, 8]);
    assert!(graph.contains_node(5));
    assert!(!graph.contains_node(3));
    assert_eq!(graph.position_of(6), Some(3));
    assert_eq!(graph.position_of(7), None);
}

#[test]
fn weights_add_up() {
    let mut graph = square();
    assert_eq!(graph.edge_count(), 4);
    assert_eq!(graph.black_edge_count(), 3);
    assert_eq!(graph.gray_edge_count(), 4);
    assert_eq!(graph.edge_count_of(EdgeColor::Gray), 4);

    graph.add_edge(4, 2, BiedgedWeight::gray(2)).unwrap();
    let w = graph.edge_weight(2, 4);
    assert_eq!((w.black, w.gray), (1, 2));
    assert_eq!(graph.edge_weight(4, 2), w);
    assert_eq!(graph.edge_count(), 4);
    assert_eq!(graph.gray_edge_count(), 6);

    // no edge at all changes nothing
    graph.add_edge(2, 6, BiedgedWeight::empty()).unwrap();
    assert_eq!(graph.edge_count(), 4);
    assert!(graph.edge_weight(2, 6).is_empty());

    // a loop is an edge like any other
    graph.add_edge(6, 6, BiedgedWeight::black(1)).unwrap();
    assert_eq!(graph.edge_weight(6, 6).black, 1);
    assert_eq!(graph.black_edge_count(), 4);
}

#[test]
fn an_edge_needs_its_endpoints() {
    let mut graph = square();
    assert_eq!(
        graph.add_edge(3, 4, BiedgedWeight::black(1)),
        Err(GraphError::InvalidGraph { endpoint: 3 })
    );
    assert_eq!(
        graph.add_edge(4, 9, BiedgedWeight::black(1)),
        Err(GraphError::InvalidGraph { endpoint: 9 })
    );
    assert_eq!(
        graph.add_edge(11, 9, BiedgedWeight::black(1)),
        Err(GraphError::InvalidGraph { endpoint: 11 })
    );
    assert_eq!(graph.edge_count(), 4);
    assert_eq!(graph.black_edge_count(), 3);
}

#[test]
fn edge_lists_by_colour() {
    let graph = square();
    let record = |from, to, black, gray| BiedgedEdge {
        from,
        to,
        weight: BiedgedWeight { black, gray },
    };
    assert_eq!(
        graph.all_edges(),
        &vec![
            record(2, 4, 1, 0),
            record(2, 8, 0, 3),
            record(4, 6, 0, 1),
            record(6, 8, 2, 0)
        ]
    );
    assert_eq!(
        graph.gray_edges(),
        vec![record(2, 8, 0, 3), record(4, 6, 0, 1)]
    );
    assert_eq!(
        graph.black_edges(),
        vec![record(2, 4, 1, 0), record(6, 8, 2, 0)]
    );
    assert_eq!(graph.first_edge_of(EdgeColor::Gray), Some((2, 8)));
    assert_eq!(graph.first_edge_of(EdgeColor::Black), Some((2, 4)));
    assert_eq!(BiedgedGraph::new().first_edge_of(EdgeColor::Black), None);
}

#[test]
fn neighbours_come_in_ascending_order() {
    let mut graph = square();
    graph.add_edge(4, 4, BiedgedWeight::black(1)).unwrap();
    graph.add_edge(4, 8, BiedgedWeight::black(1)).unwrap();
    assert_eq!(graph.neighbors_of(4, EdgeColor::Black), vec![2, 4, 8]);
    assert_eq!(graph.neighbors_of(4, EdgeColor::Gray), vec![6]);
    assert_eq!(graph.neighbors_of(8, EdgeColor::Black), vec![4, 6]);
    assert_eq!(graph.neighbors_of(3, EdgeColor::Black), Vec::<u64>::new());
}

#[test]
fn merging_reroutes_the_edges() {
    let mut graph = square();
    // 8 goes into 2: the gray edges between them become loops at 2
    assert_eq!(graph.merge_vertices(2, 8), Some(2));
    assert_eq!(graph.nodes(), &vec![2u64, 4, 6]);
    let at_two = graph.edge_weight(2, 2);
    assert_eq!((at_two.black, at_two.gray), (0, 3));
    let to_six = graph.edge_weight(2, 6);
    assert_eq!((to_six.black, to_six.gray), (2, 0));
    assert_eq!(graph.black_edge_count(), 3);
    assert_eq!(graph.gray_edge_count(), 4);

    // nothing happens without both vertices
    assert_eq!(graph.merge_vertices(2, 8), None);
    assert_eq!(graph.merge_vertices(9, 4), None);
    assert_eq!(graph.node_count(), 3);
    // a vertex merged into itself stays as it is
    assert_eq!(graph.merge_vertices(4, 4), Some(4));
    assert_eq!(graph.node_count(), 3);
    assert_eq!(graph.edge_count(), 4);
}

#[test]
fn contracting_takes_one_edge_away() {
    let mut graph = square();
    // there is no black edge between 2 and 8
    assert_eq!(graph.contract_edge(2, 8, EdgeColor::Black), None);
    assert_eq!(graph.contract_edge(2, 6, EdgeColor::Gray), None);
    assert_eq!(graph.node_count(), 4);

    assert_eq!(graph.contract_edge(8, 2, EdgeColor::Gray), Some(8));
    assert_eq!(graph.nodes(), &vec![4u64, 6, 8]);
    let at_eight = graph.edge_weight(8, 8);
    assert_eq!((at_eight.black, at_eight.gray), (0, 2));
    assert_eq!(graph.edge_weight(4, 8).black, 1);
    assert_eq!(graph.gray_edge_count(), 3);
    assert_eq!(graph.black_edge_count(), 3);

    // contracting a loop only removes it
    assert_eq!(graph.contract_edge(8, 8, EdgeColor::Gray), Some(8));
    assert_eq!(graph.contract_edge(8, 8, EdgeColor::Gray), Some(8));
    assert_eq!(graph.contract_edge(8, 8, EdgeColor::Gray), None);
    assert_eq!(graph.node_count(), 3);
    assert_eq!(graph.gray_edge_count(), 1);
}

#[test]
fn a_record_with_both_colours_keeps_the_other() {
    // x -> y and y -> y: the gray edge from the right to the left side of y
    // lies beside the black edge of y
    let mut graph = BiedgedGraph::new();
    graph.add_node(2);
    graph.add_node(3);
    graph.add_edge(2, 3, BiedgedWeight::black(1)).unwrap();
    graph.add_edge(3, 2, BiedgedWeight::gray(1)).unwrap();
    assert_eq!(graph.edge_count(), 1);
    assert_eq!(graph.contract_edge(2, 3, EdgeColor::Gray), Some(2));
    let left = graph.edge_weight(2, 2);
    assert_eq!((left.black, left.gray), (1, 0));
}

#[test]
fn graph_of_segments_and_links() {
    let graph = BiedgedGraph::from_segments(&vec![5, 7], &vec![(11, 14), (11, 14), (10, 15)]).unwrap();
    assert_eq!(graph.nodes(), &vec![10u64, 11, 14, 15]);
    assert_eq!(graph.black_edge_count(), 2);
    assert_eq!(graph.gray_edge_count(), 3);
    assert_eq!(graph.edge_weight(10, 11).black, 1);
    assert_eq!(graph.edge_weight(14, 15).black, 1);
    assert_eq!(graph.edge_weight(11, 14).gray, 2);
    assert_eq!(graph.edge_weight(15, 10).gray, 1);

    // a sequence node that is named twice has two black edges
    let twice = BiedgedGraph::from_segments(&vec![1, 1], &vec![]).unwrap();
    assert_eq!(twice.node_count(), 2);
    assert_eq!(twice.edge_weight(2, 3).black, 2);

    let none = BiedgedGraph::from_segments(&vec![], &vec![]).unwrap();
    assert_eq!(none.node_count(), 0);
    assert_eq!(none.edge_count(), 0);
}

#[test]
fn graph_of_bad_input_is_refused() {
    // a link to an endpoint of no sequence node
    let missing = BiedgedGraph::from_segments(&vec![5, 7], &vec![(11, 14), (11, 16)]);
    assert_eq!(missing.err(), Some(GraphError::InvalidGraph { endpoint: 16 }));
    let missing = BiedgedGraph::from_segments(&vec![5, 7], &vec![(9, 16)]);
    assert_eq!(missing.err(), Some(GraphError::InvalidGraph { endpoint: 9 }));
    // a sequence node whose endpoints have no id
    let large = BiedgedGraph::from_segments(&vec![5, u64::MAX / 2 + 1], &vec![(9, 16)]);
    assert_eq!(
        large.err(),
        Some(GraphError::InvalidGraph {
            endpoint: u64::MAX / 2 + 1
        })
    );
    // the largest sequence node that fits
    let fits = BiedgedGraph::from_segments(&vec![u64::MAX / 2], &vec![]).unwrap();
    assert_eq!(fits.nodes(), &vec![u64::MAX - 1, u64::MAX]);
}

#[test]
fn weights_by_colour() {
    let black = BiedgedWeight::black(3);
    assert_eq!((black.black, black.gray), (3, 0));
    let gray = BiedgedWeight::gray(2);
    assert_eq!((gray.black, gray.gray), (0, 2));
    assert!(BiedgedWeight::empty().is_empty());
    assert!(!gray.is_empty());
    assert_eq!(BiedgedWeight::of_color(EdgeColor::Gray, 4), BiedgedWeight::gray(4));
    assert_eq!(BiedgedWeight::of_color(EdgeColor::Black, 4), BiedgedWeight::black(4));
    assert_eq!(black.get(EdgeColor::Black), 3);
    assert_eq!(black.get(EdgeColor::Gray), 0);
}

#[test]
fn finding_follows_the_entries() {
    let mut proj_map: BTreeMap<u64, u64> = BTreeMap::new();
    assert_eq!(find_projection(&proj_map, 7), 7);
    proj_map.insert(1, 2);
    proj_map.insert(2, 2);
    proj_map.insert(2, 6);
    proj_map.insert(6, 6);
    proj_map.insert(9, 1);
    assert_eq!(find_projection(&proj_map, 9), 6);
    assert_eq!(find_projection(&proj_map, 1), 6);
    assert_eq!(find_projection(&proj_map, 2), 6);
    assert_eq!(find_projection(&proj_map, 6), 6);
    assert_eq!(find_projection(&proj_map, 3), 3);
    for x in [1u64, 2, 3, 6, 9] {
        let rep = find_projection(&proj_map, x);
        assert_eq!(find_projection(&proj_map, rep), rep);
    }
}

#[test]
fn names_of_endpoints() {
    let names = vec!["a".to_string(), "bee".to_string()];
    assert_eq!(projected_node_name(&names, 0), Some("a".to_string()));
    assert_eq!(projected_node_name(&names, 1), Some("a_".to_string()));
    assert_eq!(projected_node_name(&names, 2), Some("bee".to_string()));
    assert_eq!(projected_node_name(&names, 3), Some("bee_".to_string()));
    assert_eq!(projected_node_name(&names, 4), None);
    assert_eq!(split_node_id(0), (0, 1));
    assert_eq!(split_node_id(21), (42, 43));
}

#[test]
fn the_same_edges_give_the_same_lists() {
    // the same vertices and edges, put in in two different orders
    let mut one = BiedgedGraph::new();
    for v in [1u64, 2, 3, 4] {
        one.add_node(v);
    }
    one.add_edge(1, 2, BiedgedWeight::black(1)).unwrap();
    one.add_edge(3, 4, BiedgedWeight::gray(2)).unwrap();
    one.add_edge(2, 3, BiedgedWeight::black(1)).unwrap();
    one.add_edge(2, 1, BiedgedWeight::gray(1)).unwrap();

    let mut other = BiedgedGraph::new();
    for v in [4u64, 2, 3, 1] {
        other.add_node(v);
    }
    other.add_edge(4, 3, BiedgedWeight::gray(1)).unwrap();
    other.add_edge(1, 2, BiedgedWeight::gray(1)).unwrap();
    other.add_edge(3, 2, BiedgedWeight::black(1)).unwrap();
    other.add_edge(3, 4, BiedgedWeight::gray(1)).unwrap();
    other.add_edge(2, 1, BiedgedWeight::black(1)).unwrap();

    assert_eq!(one.nodes(), other.nodes());
    assert_eq!(one.all_edges(), other.all_edges());
    let ends: Vec<(u64, u64, usize, usize)> = one
        .all_edges()
        .iter()
        .map(|e| (e.from, e.to, e.weight.black, e.weight.gray))
        .collect();
    assert_eq!(ends, vec![(1, 2, 1, 1), (2, 3, 1, 0), (3, 4, 0, 2)]);

    // and so after the same merge
    assert_eq!(one.merge_vertices(2, 3), Some(2));
    assert_eq!(other.merge_vertices(2, 3), Some(2));
    assert_eq!(one.nodes(), other.nodes());
    assert_eq!(one.all_edges(), other.all_edges());
}
