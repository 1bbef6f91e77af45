use cactusgraph::biedged_to_cactus::{
    black_edges_with_multiplicity, can_merge, components_with_vertices, contract_all_gray_edges,
    contract_loops, find_3_edge_connected_components, find_bridges, find_cycles, find_cycles_,
    find_loops, gray_contracted_graph, merge_components, merge_three_edge_connected,
    merge_where_possible, non_singletons, numbers_below, survivor,
};
use cactusgraph::biedgedgraph::{
    find_projection, projected_node_name, split_node_id, BiedgedWeight, EdgeColor, GraphError,
};
use cactusgraph::biedgedgraph::BiedgedGraph;
use cactusgraph::cycles::{find_search_cycles, find_short_cycles};
use std::collections::BTreeMap;

fn graph_from_paper() -> BiedgedGraph {
    let mut graph = BiedgedGraph::new();

    for i in 1..=18 {
        let n = 10 * i;
        graph.add_node(n);
        graph.add_node(n + 1);
    }

    // One black edge for each of the sequence nodes a..r
    for i in 1..=18 {
        let n = 10 * i;
        graph.add_edge(n, n + 1, BiedgedWeight::black(1)).unwrap();
    }

    let links: Vec<(u64, u64)> = vec![
        (11, 20),
        (11, 30),
        (21, 40),
        (31, 40),
        (41, 50),
        (41, 60),
        (51, 70),
        (61, 70),
        (61, 80),
        (71, 110),
        (71, 120),
        (81, 90),
        (81, 100),
        (91, 100),
        (101, 120),
        (110, 120),
        (121, 130),
        (131, 140),
        (131, 150),
        (141, 160),
        (151, 160),
        (161, 130),
        (161, 170),
        (161, 180),
    ];
    for (a, b) in links {
        graph.add_edge(a, b, BiedgedWeight::gray(1)).unwrap();
    }

    graph
}

#[test]
fn simple_contract_all_gray_edges() {
    let mut graph: BiedgedGraph = BiedgedGraph::new();

    graph.add_node(10);
    graph.add_node(11);
    graph.add_edge(10, 11, BiedgedWeight::black(1)).unwrap();

    graph.add_node(20);
    graph.add_node(21);
    graph.add_edge(20, 21, BiedgedWeight::black(1)).unwrap();

    graph.add_node(30);
    graph.add_node(31);
    graph.add_edge(30, 31, BiedgedWeight::black(1)).unwrap();

    graph.add_node(40);
    graph.add_node(41);
    graph.add_edge(40, 41, BiedgedWeight::black(1)).unwrap();

    graph.add_edge(11, 20, BiedgedWeight::gray(1)).unwrap();
    graph.add_edge(11, 30, BiedgedWeight::gray(1)).unwrap();
    graph.add_edge(21, 40, BiedgedWeight::gray(1)).unwrap();
    graph.add_edge(31, 40, BiedgedWeight::gray(1)).unwrap();

    let mut proj_map = BTreeMap::new();
    contract_all_gray_edges(&mut graph, &mut proj_map);

    assert!(graph.node_count() == 4);
    assert_eq!(graph.black_edge_count(), 4);

    // Parallel edges are one record with a multiplicity: the two black
    // edges between the merged ends count once here.
    assert!(graph.edge_count() == 3);
}

#[test]
fn paper_contract_all_gray_edges() {
    let mut graph: BiedgedGraph = graph_from_paper();

    let mut proj_map = BTreeMap::new();
    contract_all_gray_edges(&mut graph, &mut proj_map);

    assert_eq!(graph.gray_edge_count(), 0);
    assert_eq!(
        graph.black_edge_count(),
        18,
        "Expected 18 black edges, is actually {:#?}",
        graph.black_edge_count()
    );
}

/// The 18 sequence nodes a..r with their links; k and l are linked from the
/// right side of k.
fn paper_links() -> Vec<(u64, u64)> {
    let names = "abcdefghijklmnopqr";
    let id = |c: char| names.find(c).unwrap() as u64;
    let right_to_left: Vec<(char, char)> = vec![
        ('a', 'b'),
        ('a', 'c'),
        ('b', 'd'),
        ('c', 'd'),
        ('d', 'e'),
        ('d', 'f'),
        ('e', 'g'),
        ('f', 'g'),
        ('f', 'h'),
        ('g', 'k'),
        ('g', 'l'),
        ('h', 'i'),
        ('h', 'j'),
        ('i', 'j'),
        ('j', 'l'),
        ('k', 'l'),
        ('l', 'm'),
        ('m', 'n'),
        ('m', 'o'),
        ('n', 'p'),
        ('o', 'p'),
        ('p', 'm'),
        ('p', 'q'),
        ('p', 'r'),
    ];
    right_to_left
        .into_iter()
        .map(|(from, to)| (2 * id(from) + 1, 2 * id(to)))
        .collect()
}

#[test]
fn edge_contraction_projection_map() {
    let names: Vec<String> = "abcdefghijklmnopqr"
        .chars()
        .map(|c| c.to_string())
        .collect();
    let segments: Vec<u64> = (0..18).collect();

    let mut graph = BiedgedGraph::from_segments(&segments, &paper_links()).unwrap();

    let mut proj_map = BTreeMap::new();
    contract_all_gray_edges(&mut graph, &mut proj_map);

    let proj_names: Vec<(String, (String, String))> = segments
        .iter()
        .map(|&orig| {
            let orig_name = names[orig as usize].clone();
            let (l, r) = split_node_id(orig);
            let l_end = find_projection(&proj_map, l);
            let r_end = find_projection(&proj_map, r);
            let l_end = projected_node_name(&names, l_end).unwrap();
            let r_end = projected_node_name(&names, r_end).unwrap();
            (orig_name, (l_end, r_end))
        })
        .collect();

    let expected_names: Vec<(String, (String, String))> = vec![
        ("a", ("a", "b")),
        ("b", ("b", "d")),
        ("c", ("b", "d")),
        ("d", ("d", "e")),
        ("e", ("e", "g")),
        ("f", ("e", "g")),
        ("g", ("g", "k")),
        ("h", ("g", "i")),
        ("i", ("i", "i")),
        ("j", ("i", "k")),
        ("k", ("k", "k")),
        ("l", ("k", "m")),
        ("m", ("m", "n")),
        ("n", ("n", "p")),
        ("o", ("n", "p")),
        ("p", ("p", "m")),
        ("q", ("m", "q_")),
        ("r", ("m", "r_")),
    ]
    .into_iter()
    .map(|(a, (l, r))| (a.to_string(), (l.to_string(), r.to_string())))
    .collect();

    assert_eq!(expected_names, proj_names);
    assert_eq!(graph.black_edge_count(), 18);
    assert_eq!(graph.gray_edge_count(), 0);
}

#[test]
fn cycle_detection() {
    let mut graph: BiedgedGraph = BiedgedGraph::new();

    for i in 0..=11 {
        graph.add_node(i);
    }

    let edges = vec![
        (0, 1),
        (1, 2),
        (1, 2),
        (2, 3),
        (3, 4),
        (3, 4),
        (4, 5),
        (4, 6),
        (5, 5),
        (5, 6),
        (6, 6),
        (6, 7),
        (7, 8),
        (7, 9),
        (7, 10),
        (7, 10),
        (10, 10),
        (10, 10),
    ];

    for (a, b) in edges {
        graph.add_edge(a, b, BiedgedWeight::black(1)).unwrap();
    }

    let cycles = find_cycles(&graph);
    println!("found {} cycles", cycles.len());

    for cycle in cycles.iter() {
        let mut line = String::new();
        for c in cycle {
            line.push_str(&format!(" {}", c));
        }
        println!("{}", line);
    }

    let expected: Vec<Vec<u64>> = vec![
        vec![1, 2],
        vec![3, 4],
        vec![5],
        vec![6],
        vec![7, 10],
        vec![10],
        vec![10],
        vec![6, 5, 4],
    ];
    assert_eq!(cycles, expected);
    assert_eq!(find_short_cycles(&graph), expected[..7].to_vec());
    assert_eq!(find_cycles_(&graph), expected);
    assert_eq!(find_search_cycles(&graph), vec![vec![6u64, 5, 4]]);
}

#[test]
fn cycles_of_a_square_with_a_tail() {
    // 0 - 1 - 2 - 3 - 0 and 3 - 4
    let mut graph = BiedgedGraph::new();
    for i in 0..5 {
        graph.add_node(i);
    }
    for (a, b) in [(0, 1), (1, 2), (2, 3), (0, 3), (3, 4)] {
        graph.add_edge(a, b, BiedgedWeight::black(1)).unwrap();
    }
    assert_eq!(find_cycles(&graph), vec![vec![3u64, 2, 1, 0]]);
    assert_eq!(
        find_loops(&graph),
        vec![vec![(3u64, 2u64), (2, 1), (1, 0), (0, 3)]]
    );
    let bridges = find_bridges(&graph);
    assert_eq!(bridges.len(), 1);
    assert_eq!((bridges[0].from, bridges[0].to), (3, 4));
}

#[test]
fn linear_chain_has_no_cycle() {
    // Sequence nodes 1..4, linked 1 -> 2 -> 3 -> 4 from right side to left side
    let segments: Vec<u64> = vec![1, 2, 3, 4];
    let links: Vec<(u64, u64)> = vec![(3, 4), (5, 6), (7, 8)];
    let mut graph = BiedgedGraph::from_segments(&segments, &links).unwrap();
    assert_eq!(graph.node_count(), 8);
    assert_eq!(graph.black_edge_count(), 4);
    assert_eq!(graph.gray_edge_count(), 3);

    let mut proj_map = BTreeMap::new();
    contract_all_gray_edges(&mut graph, &mut proj_map);

    // One vertex for each component of the gray edges: the two free ends
    // and the three links.
    assert_eq!(graph.node_count(), 5);
    assert_eq!(graph.black_edge_count(), 4);
    assert_eq!(graph.gray_edge_count(), 0);
    assert_eq!(graph.nodes(), &vec![2u64, 4, 6, 8, 9]);

    assert!(find_cycles(&graph).is_empty());
    let bridges = find_bridges(&graph);
    let ends: Vec<(u64, u64)> = bridges.iter().map(|e| (e.from, e.to)).collect();
    assert_eq!(ends, vec![(2, 4), (4, 6), (6, 8), (8, 9)]);

    assert_eq!(find_3_edge_connected_components(&graph), Vec::<Vec<usize>>::new());
}

#[test]
fn simple_bubble_is_a_cycle_of_two_edges() {
    // a -> b, a -> c, b -> d, c -> d with a = 0, b = 1, c = 2, d = 3
    let segments: Vec<u64> = vec![0, 1, 2, 3];
    let links: Vec<(u64, u64)> = vec![(1, 2), (1, 4), (3, 6), (5, 6)];
    let mut graph = BiedgedGraph::from_segments(&segments, &links).unwrap();
    let mut proj_map = BTreeMap::new();
    contract_all_gray_edges(&mut graph, &mut proj_map);

    assert_eq!(graph.nodes(), &vec![0u64, 2, 6, 7]);
    // The right side of a and the left sides of b and c are one vertex,
    // the right sides of b and c and the left side of d another.
    assert_eq!(find_projection(&proj_map, 1), 2);
    assert_eq!(find_projection(&proj_map, 4), 2);
    assert_eq!(find_projection(&proj_map, 3), 6);
    assert_eq!(find_projection(&proj_map, 5), 6);
    let between = graph.edge_weight(2, 6);
    assert_eq!((between.black, between.gray), (2, 0));

    assert_eq!(find_cycles(&graph), vec![vec![2u64, 6]]);
    let bridges: Vec<(u64, u64)> = find_bridges(&graph)
        .iter()
        .map(|e| (e.from, e.to))
        .collect();
    assert_eq!(bridges, vec![(0, 2), (6, 7)]);
}

#[test]
fn tandem_repeat_is_a_loop() {
    // x -> y and y -> y with x = 0, y = 1
    let segments: Vec<u64> = vec![0, 1];
    let links: Vec<(u64, u64)> = vec![(1, 2), (3, 2)];
    let mut graph = BiedgedGraph::from_segments(&segments, &links).unwrap();
    let mut proj_map = BTreeMap::new();
    contract_all_gray_edges(&mut graph, &mut proj_map);

    assert_eq!(graph.nodes(), &vec![0u64, 2]);
    assert_eq!(find_projection(&proj_map, 3), 2);
    let at_y = graph.edge_weight(2, 2);
    assert_eq!((at_y.black, at_y.gray), (1, 0));
    assert_eq!(find_cycles(&graph), vec![vec![2u64]]);
}

#[test]
fn two_bubbles_apart() {
    let segments: Vec<u64> = vec![0, 1, 2, 3, 10, 11, 12, 13];
    let links: Vec<(u64, u64)> = vec![
        (1, 2),
        (1, 4),
        (3, 6),
        (5, 6),
        (21, 22),
        (21, 24),
        (23, 26),
        (25, 26),
    ];
    let mut graph = BiedgedGraph::from_segments(&segments, &links).unwrap();
    let mut proj_map = BTreeMap::new();
    contract_all_gray_edges(&mut graph, &mut proj_map);

    assert_eq!(graph.nodes(), &vec![0u64, 2, 6, 7, 20, 22, 26, 27]);
    assert_eq!(find_cycles(&graph), vec![vec![2u64, 6], vec![22, 26]]);
    // Nothing joins the two bubbles
    for a in [0u64, 2, 6, 7] {
        for b in [20u64, 22, 26, 27] {
            let w = graph.edge_weight(a, b);
            assert!(w.is_empty());
        }
    }
}

#[test]
fn survivor_prefers_left_endpoints() {
    assert_eq!(survivor(1, 2), (2, 1));
    assert_eq!(survivor(2, 1), (2, 1));
    assert_eq!(survivor(2, 4), (2, 4));
    assert_eq!(survivor(5, 3), (3, 5));
    assert_eq!(survivor(7, 7), (7, 7));
}

#[test]
fn gray_components_become_vertices() {
    let mut graph = graph_from_paper();
    let before: Vec<u64> = graph.nodes().clone();
    let mut proj_map = BTreeMap::new();
    contract_all_gray_edges(&mut graph, &mut proj_map);

    // Every vertex that is left stands for itself, and finding is
    // idempotent.
    for &v in graph.nodes() {
        assert_eq!(find_projection(&proj_map, v), v);
    }
    for &v in &before {
        let rep = find_projection(&proj_map, v);
        assert_eq!(find_projection(&proj_map, rep), rep);
        assert!(graph.contains_node(rep));
    }
    // 11, 20 and 30 were joined by gray edges: the left endpoint 20 stays
    assert_eq!(find_projection(&proj_map, 11), 20);
    assert_eq!(find_projection(&proj_map, 30), 20);
    // 10 and 181 had no gray edge
    assert_eq!(find_projection(&proj_map, 10), 10);
    assert_eq!(find_projection(&proj_map, 181), 181);
    // k's right side has no link in this graph
    assert_eq!(find_projection(&proj_map, 111), 111);
    assert_eq!(find_projection(&proj_map, 120), 110);
}

#[test]
fn complete_graph_is_one_component() {
    let mut graph = BiedgedGraph::new();
    for v in [10u64, 20, 30, 40, 50] {
        graph.add_node(v);
    }
    for (a, b) in [(10, 20), (10, 30), (10, 40), (20, 30), (20, 40), (30, 40), (40, 50)] {
        graph.add_edge(a, b, BiedgedWeight::black(1)).unwrap();
    }
    let components = find_3_edge_connected_components(&graph);
    assert_eq!(components.len(), 1);
    let mut members = components[0].clone();
    members.sort();
    assert_eq!(members, vec![10, 20, 30, 40]);

    assert!(can_merge(&graph, &components));
    let head = components[0][0] as u64;
    let mut proj_map = BTreeMap::new();
    merge_components(&mut graph, components, &mut proj_map);

    assert_eq!(graph.node_count(), 2);
    assert_eq!(graph.black_edge_count(), 7);
    let at_head = graph.edge_weight(head, head);
    assert_eq!(at_head.black, 6);
    assert_eq!(graph.edge_weight(head, 50).black, 1);
    for v in [10u64, 20, 30, 40] {
        assert_eq!(find_projection(&proj_map, v), head);
    }
    assert_eq!(find_projection(&proj_map, 50), 50);
}

#[test]
fn components_that_cannot_be_merged() {
    let mut graph = BiedgedGraph::new();
    for v in [1u64, 2, 3] {
        graph.add_node(v);
    }
    assert!(can_merge(&graph, &vec![vec![1, 2], vec![3]]));
    assert!(can_merge(&graph, &vec![]));
    // an empty component
    assert!(!can_merge(&graph, &vec![vec![1, 2], vec![]]));
    // a member that is no vertex
    assert!(!can_merge(&graph, &vec![vec![1, 4]]));
    // a vertex named twice
    assert!(!can_merge(&graph, &vec![vec![1, 2], vec![3, 1]]));
    assert!(!can_merge(&graph, &vec![vec![2, 2]]));
}

#[test]
fn singletons_are_dropped() {
    let found: Vec<Vec<usize>> = vec![vec![0], vec![1, 2], vec![], vec![3, 4, 5], vec![6]];
    assert_eq!(non_singletons(&found), vec![vec![1, 2], vec![3, 4, 5]]);
    assert!(numbers_below(&found, 6));
    assert!(!numbers_below(&found, 5));
    // a number in a component of one member does not count
    assert!(numbers_below(&vec![vec![9], vec![0, 1]], 2));
}

#[test]
fn contracting_the_cycles_leaves_the_bridges() {
    // A triangle 0 - 1 - 2 with a tail 2 - 3 and two parallel edges 3 = 4
    let mut graph = BiedgedGraph::new();
    for i in 0..5 {
        graph.add_node(i);
    }
    for (a, b) in [(0, 1), (1, 2), (0, 2), (2, 3), (3, 4), (3, 4)] {
        graph.add_edge(a, b, BiedgedWeight::black(1)).unwrap();
    }
    let mut proj_map = BTreeMap::new();
    let loops = contract_loops(&mut graph, &mut proj_map);
    assert_eq!(loops.len(), 2);

    let triangle = find_projection(&proj_map, 0);
    assert_eq!(find_projection(&proj_map, 1), triangle);
    assert_eq!(find_projection(&proj_map, 2), triangle);
    let pair = find_projection(&proj_map, 3);
    assert_eq!(find_projection(&proj_map, 4), pair);
    assert!(triangle != pair);

    assert_eq!(graph.node_count(), 2);
    assert_eq!(graph.black_edge_count(), 1);
    assert_eq!(graph.edge_weight(triangle, pair).black, 1);
    assert!(find_cycles(&graph).is_empty());
    assert_eq!(graph.first_edge_of(EdgeColor::Black), Some((triangle.min(pair), triangle.max(pair))));
}

#[test]
fn parallel_edges() {
    // u -> v and v -> u with u = 0, v = 1: two black edges between the two
    // vertices that are left
    let segments: Vec<u64> = vec![0, 1];
    let links: Vec<(u64, u64)> = vec![(1, 2), (3, 0)];
    let mut graph = BiedgedGraph::from_segments(&segments, &links).unwrap();
    let mut proj_map = BTreeMap::new();
    contract_all_gray_edges(&mut graph, &mut proj_map);

    assert_eq!(graph.nodes(), &vec![0u64, 2]);
    assert_eq!(graph.edge_count(), 1);
    let between = graph.edge_weight(0, 2);
    assert_eq!((between.black, between.gray), (2, 0));
    assert_eq!(black_edges_with_multiplicity(&graph), vec![(0, 2), (0, 2)]);

    // Two edges can be cut with two cuts: the vertices stay apart, and the
    // two edges are a cycle.
    assert_eq!(find_3_edge_connected_components(&graph), Vec::<Vec<usize>>::new());
    assert_eq!(
        merge_three_edge_connected(&mut graph, &mut proj_map),
        Some(vec![])
    );
    assert_eq!(graph.node_count(), 2);
    assert_eq!(find_cycles(&graph), vec![vec![0u64, 2]]);

    // With a third edge between them the two are one component: one vertex
    // is left, with three loops.
    graph.add_edge(0, 2, BiedgedWeight::black(1)).unwrap();
    assert_eq!(find_3_edge_connected_components(&graph), vec![vec![0, 2]]);
    assert_eq!(
        merge_three_edge_connected(&mut graph, &mut proj_map),
        Some(vec![vec![0, 2]])
    );
    assert_eq!(graph.nodes(), &vec![0u64]);
    let loops = graph.edge_weight(0, 0);
    assert_eq!((loops.black, loops.gray), (3, 0));
    assert_eq!(graph.black_edge_count(), 3);
    assert_eq!(find_projection(&proj_map, 2), 0);
    assert_eq!(find_projection(&proj_map, 3), 0);
    assert_eq!(find_cycles(&graph), vec![vec![0u64], vec![0], vec![0]]);
}

#[test]
fn paper_graph_to_cactus() {
    let segments: Vec<u64> = (0..18).collect();
    let mut graph = BiedgedGraph::from_segments(&segments, &paper_links()).unwrap();
    let mut proj_map = BTreeMap::new();
    contract_all_gray_edges(&mut graph, &mut proj_map);
    let vertices = graph.node_count();
    assert_eq!(vertices, 12);

    let components = find_3_edge_connected_components(&graph);
    assert!(can_merge(&graph, &components));
    let merged_away: usize = components.iter().map(|c| c.len() - 1).sum();
    assert_eq!(
        merge_three_edge_connected(&mut graph, &mut proj_map),
        Some(components.clone())
    );

    assert_eq!(graph.node_count(), vertices - merged_away);
    assert_eq!(graph.black_edge_count(), 18);
    assert_eq!(graph.gray_edge_count(), 0);
    for component in &components {
        for &v in component {
            assert_eq!(find_projection(&proj_map, v as u64), component[0] as u64);
        }
    }
    // every endpoint still has a representative among the vertices
    for id in 0..36u64 {
        let rep = find_projection(&proj_map, id);
        assert!(graph.contains_node(rep));
        assert_eq!(find_projection(&proj_map, rep), rep);
    }
    // in a cactus graph no edge lies on two cycles
    let loops = find_loops(&graph);
    let mut on_a_cycle: Vec<(u64, u64)> = Vec::new();
    for each_loop in &loops {
        if each_loop.len() >= 3 {
            for &(a, b) in each_loop {
                let edge = (a.min(b), a.max(b));
                assert!(!on_a_cycle.contains(&edge));
                on_a_cycle.push(edge);
            }
        }
    }
}

#[test]
fn numbers_get_their_vertices_back() {
    // The vertices 40, 10 and 30 get the numbers 0, 1 and 2
    let graph = three_edge_connected::Graph::from_edges(
        vec![(40usize, 10usize), (10, 30), (30, 40)].into_iter(),
    );
    let found: Vec<Vec<usize>> = vec![vec![2], vec![1, 0], vec![], vec![0, 2, 1]];
    assert_eq!(
        components_with_vertices(&graph, &found),
        Some(vec![vec![10, 40], vec![40, 30, 10]])
    );
    // no vertex has the number 3
    let found: Vec<Vec<usize>> = vec![vec![1, 0], vec![0, 3]];
    assert_eq!(components_with_vertices(&graph, &found), None);
    // a number alone is not looked at
    let found: Vec<Vec<usize>> = vec![vec![7], vec![0, 1]];
    assert_eq!(
        components_with_vertices(&graph, &found),
        Some(vec![vec![40, 10]])
    );
}

#[test]
fn graph_of_links_contracted() {
    let segments: Vec<u64> = vec![0, 1, 2, 3];
    let links: Vec<(u64, u64)> = vec![(1, 2), (1, 4), (3, 6), (5, 6)];
    let (graph, proj_map) = gray_contracted_graph(&segments, &links).unwrap();
    // as many black edges as sequence nodes, no gray edge, and one vertex
    // for each component of the links
    assert_eq!(graph.black_edge_count(), 4);
    assert_eq!(graph.gray_edge_count(), 0);
    assert_eq!(graph.nodes(), &vec![0u64, 2, 6, 7]);
    let reps: Vec<u64> = (0..8).map(|x| find_projection(&proj_map, x)).collect();
    assert_eq!(reps, vec![0, 2, 2, 6, 2, 6, 6, 7]);

    let refused = gray_contracted_graph(&segments, &vec![(1, 2), (1, 8)]);
    assert_eq!(
        refused.err(),
        Some(GraphError::InvalidGraph { endpoint: 8 })
    );
}

#[test]
fn merging_what_was_found() {
    let triangle = || {
        let mut graph = BiedgedGraph::new();
        for v in [2u64, 4, 6, 8] {
            graph.add_node(v);
        }
        for (a, b) in [(2, 4), (4, 6), (2, 6), (6, 8)] {
            graph.add_edge(a, b, BiedgedWeight::black(1)).unwrap();
        }
        graph
    };

    // components that can be merged are merged and come back
    let mut graph = triangle();
    let mut proj_map = BTreeMap::new();
    let found = vec![vec![4usize, 2], vec![8, 6]];
    assert_eq!(
        merge_where_possible(&mut graph, found.clone(), &mut proj_map),
        Some(found)
    );
    assert_eq!(graph.nodes(), &vec![4u64, 8]);
    assert_eq!(graph.edge_weight(4, 4).black, 1);
    assert_eq!(graph.edge_weight(4, 8).black, 2);
    assert_eq!(graph.edge_weight(8, 8).black, 1);
    assert_eq!(find_projection(&proj_map, 2), 4);
    assert_eq!(find_projection(&proj_map, 6), 8);

    // no components at all: nothing to merge, and that is done
    let mut graph = triangle();
    let mut proj_map = BTreeMap::new();
    assert_eq!(
        merge_where_possible(&mut graph, vec![], &mut proj_map),
        Some(vec![])
    );
    assert_eq!(graph.node_count(), 4);
    assert!(proj_map.is_empty());

    // what was found cannot be merged: nothing changes
    for found in [
        vec![vec![2usize, 4], vec![]],
        vec![vec![2, 5]],
        vec![vec![2, 4], vec![6, 4]],
    ] {
        let mut graph = triangle();
        let mut proj_map = BTreeMap::new();
        assert_eq!(merge_where_possible(&mut graph, found, &mut proj_map), None);
        assert_eq!(graph.nodes(), &vec![2u64, 4, 6, 8]);
        assert_eq!(graph.edge_count(), 4);
        assert_eq!(graph.black_edge_count(), 4);
        assert!(proj_map.is_empty());
    }
}

#[test]
fn a_loop_is_a_cycle_for_both_finders() {
    let mut graph = BiedgedGraph::new();
    graph.add_node(0);
    graph.add_edge(0, 0, BiedgedWeight::black(1)).unwrap();
    assert_eq!(find_cycles_(&graph), vec![vec![0u64]]);
    assert_eq!(find_cycles(&graph), vec![vec![0u64]]);
    assert!(find_search_cycles(&graph).is_empty());

    let mut graph = BiedgedGraph::new();
    graph.add_node(0);
    graph.add_node(1);
    graph.add_edge(0, 1, BiedgedWeight::black(2)).unwrap();
    assert_eq!(find_cycles_(&graph), vec![vec![0u64, 1]]);
    assert_eq!(find_cycles_(&graph), find_cycles(&graph));
}

#[test]
fn merging_writes_the_entries() {
    // the double edge
    let mut graph = BiedgedGraph::new();
    graph.add_node(0);
    graph.add_node(1);
    graph.add_edge(0, 1, BiedgedWeight::black(2)).unwrap();
    let mut proj_map = BTreeMap::new();
    merge_components(&mut graph, vec![vec![0, 1]], &mut proj_map);
    assert_eq!(graph.nodes(), &vec![0u64]);
    assert_eq!(graph.black_edge_count(), 2);
    assert_eq!(graph.edge_weight(0, 0).black, 2);
    let entries: Vec<(u64, u64)> = proj_map.into_iter().collect();
    assert_eq!(entries, vec![(0, 0), (1, 0)]);

    // components of one member and other keys are left alone
    let mut graph = BiedgedGraph::new();
    for v in [2u64, 4, 6, 8, 10] {
        graph.add_node(v);
    }
    graph.add_edge(2, 4, BiedgedWeight::black(1)).unwrap();
    let mut proj_map: BTreeMap<u64, u64> = BTreeMap::new();
    proj_map.insert(3, 2);
    proj_map.insert(8, 8);
    merge_components(&mut graph, vec![vec![10], vec![6, 2, 4]], &mut proj_map);
    assert_eq!(graph.nodes(), &vec![6u64, 8, 10]);
    assert_eq!(graph.node_count(), 5 - 2);
    let entries: Vec<(u64, u64)> = proj_map.iter().map(|(&k, &v)| (k, v)).collect();
    assert_eq!(entries, vec![(2, 6), (3, 2), (4, 6), (6, 6), (8, 8)]);
    assert_eq!(find_projection(&proj_map, 3), 6);

    // no components: nothing changes
    let before = proj_map.clone();
    merge_components(&mut graph, vec![], &mut proj_map);
    assert_eq!(proj_map, before);
    assert_eq!(graph.node_count(), 3);
}

#[test]
fn a_bridge_is_left_alone() {
    let mut graph = BiedgedGraph::new();
    graph.add_node(0);
    graph.add_node(1);
    graph.add_edge(0, 1, BiedgedWeight::black(1)).unwrap();
    let mut proj_map = BTreeMap::new();
    let loops = contract_loops(&mut graph, &mut proj_map);
    assert!(loops.is_empty());
    assert_eq!(graph.nodes(), &vec![0u64, 1]);
    assert_eq!(graph.black_edge_count(), 1);
    assert_eq!(graph.edge_weight(0, 1).black, 1);
    assert!(proj_map.is_empty());
}

#[test]
fn the_cycles_of_a_cactus_leave_its_bridges() {
    // Two triangles 0-1-2 and 2-3-4 that meet in 2, a loop at 4, two
    // parallel edges 5 = 6, and the bridges 4 - 5 and 6 - 7
    let mut graph = BiedgedGraph::new();
    for v in 0..8u64 {
        graph.add_node(v);
    }
    for (a, b) in [
        (0, 1),
        (1, 2),
        (0, 2),
        (2, 3),
        (3, 4),
        (2, 4),
        (4, 4),
        (4, 5),
        (5, 6),
        (5, 6),
        (6, 7),
    ] {
        graph.add_edge(a, b, BiedgedWeight::black(1)).unwrap();
    }
    let bridges: Vec<(u64, u64)> = find_bridges(&graph)
        .iter()
        .map(|e| (e.from, e.to))
        .collect();
    assert_eq!(bridges, vec![(4, 5), (6, 7)]);

    let mut proj_map = BTreeMap::new();
    let loops = contract_loops(&mut graph, &mut proj_map);
    assert_eq!(loops.len(), 4);

    // the vertices of the two triangles are one vertex, 5 and 6 another
    let reps: Vec<u64> = (0..8).map(|v| find_projection(&proj_map, v)).collect();
    for v in 0..5 {
        assert_eq!(reps[v], reps[0]);
    }
    assert_eq!(reps[5], reps[6]);
    assert!(reps[0] != reps[5] && reps[5] != reps[7] && reps[0] != reps[7]);
    assert_eq!(reps[7], 7);

    // a forest of the two bridges: no loop, no parallel edge
    assert_eq!(graph.node_count(), 3);
    assert_eq!(graph.black_edge_count(), 2);
    assert_eq!(graph.edge_count(), 2);
    assert_eq!(graph.edge_weight(reps[0], reps[5]).black, 1);
    assert_eq!(graph.edge_weight(reps[5], 7).black, 1);
    assert!(find_cycles(&graph).is_empty());
}

#[test]
fn contraction_writes_the_ends_of_gray_edges() {
    // a -> b with a = 0, b = 1, and a key of an earlier stage
    let mut graph = BiedgedGraph::from_segments(&vec![0, 1], &vec![(1, 2)]).unwrap();
    let mut proj_map: BTreeMap<u64, u64> = BTreeMap::new();
    proj_map.insert(40, 3);
    contract_all_gray_edges(&mut graph, &mut proj_map);
    let entries: Vec<(u64, u64)> = proj_map.into_iter().collect();
    // the left endpoint 2 stays; 0 and 3 have no gray edge and get no entry
    assert_eq!(entries, vec![(1, 2), (2, 2), (40, 3)]);
}
