use dijkstra::graph::{AdjacencyListBackedGraph, Label, Weight, WeightedDirectedGraph};

//                             1
//                         +--------------------------------+
//                         v                                |
// +---+  1   +---+  1   +---+  1   +---+  4   +---+  1   +---+
// | 5 | ---> | 6 | ---> | 3 | ---> | 4 | <--- | 1 | ---> | 2 |
// +---+      +---+      +---+      +---+      +---+      +---+
//                                               ^   1      |
//                                               +----------+
fn fixture_edges() -> Vec<(Label, Label, Weight)> {
    vec![
        (1, 2, 1),
        (2, 3, 1),
        (3, 4, 1),
        (2, 1, 1),
        (1, 4, 4),
        (5, 6, 1),
        (6, 3, 1),
    ]
}

fn create_test_graph() -> AdjacencyListBackedGraph {
    AdjacencyListBackedGraph::from_edges(fixture_edges())
}

/// The least weight of a walk from `at` to `to` that takes at least one edge and enters
/// no label twice, found by trying every such walk.
fn cheapest_by_enumeration(
    edges: &[(Label, Label, Weight)],
    at: Label,
    to: Label,
    entered: &mut Vec<Label>,
) -> Option<u64> {
    let mut best: Option<u64> = None;
    for &(source, target, weight) in edges {
        if source != at || entered.contains(&target) {
            continue;
        }
        let candidate = if target == to {
            Some(weight as u64)
        } else {
            entered.push(target);
            let onward = cheapest_by_enumeration(edges, target, to, entered);
            entered.pop();
            onward.map(|w| w + weight as u64)
        };
        if let Some(c) = candidate {
            if best.map_or(true, |b| c < b) {
                best = Some(c);
            }
        }
    }
    best
}

fn cheapest_between(edges: &[(Label, Label, Weight)], from: Label, to: Label) -> Option<u64> {
    let mut entered = vec![from];
    cheapest_by_enumeration(edges, from, to, &mut entered)
}

#[test]
fn test_basic_cases() {
    let graph = create_test_graph();
    assert_eq!(vec![1, 2], graph.dijkstra(1, 2).unwrap().label_vec());
    assert_eq!(vec![1, 2, 3, 4], graph.dijkstra(1, 4).unwrap().label_vec());
    assert_eq!(None, graph.dijkstra(1, 5));
    assert_eq!(None, graph.dijkstra(8, 1));
    assert_eq!(None, graph.dijkstra(8, 9));
    assert_eq!(None, graph.dijkstra(1, 9));
}

#[test]
fn neighbour_is_reached_by_its_arc() {
    let route = create_test_graph().dijkstra(1, 2).unwrap();
    assert_eq!(route.label_vec(), vec![1, 2]);
    assert_eq!(route.weight(), 1);
    assert_eq!(route.end_label(), 2);
}

#[test]
fn detour_beats_the_direct_arc() {
    let route = create_test_graph().dijkstra(1, 4).unwrap();
    assert_eq!(route.label_vec(), vec![1, 2, 3, 4]);
    assert_eq!(route.weight(), 3);
}

#[test]
fn label_without_incoming_path_is_not_found() {
    assert_eq!(create_test_graph().dijkstra(1, 5), None);
}

#[test]
fn label_without_outgoing_arcs_finds_nothing() {
    let graph = create_test_graph();
    assert_eq!(graph.dijkstra(8, 1), None);
    assert_eq!(graph.dijkstra(4, 1), None);
}

#[test]
fn labels_outside_the_graph_find_nothing() {
    assert_eq!(create_test_graph().dijkstra(8, 9), None);
}

#[test]
fn search_for_the_start_finds_nothing() {
    let graph = create_test_graph();
    // 1 -> 2 -> 1 leads back, and still no route is made up.
    assert_eq!(graph.dijkstra(1, 1), None);
    assert_eq!(graph.dijkstra(2, 2), None);
    assert_eq!(graph.dijkstra(4, 4), None);
    assert_eq!(graph.dijkstra(8, 8), None);
    let looped = AdjacencyListBackedGraph::from_edges(vec![(7, 7, 0)]);
    assert_eq!(looped.dijkstra(7, 7), None);
}

#[test]
fn found_route_starts_and_ends_as_asked() {
    let graph = create_test_graph();
    for from in 0..8 {
        for to in 0..8 {
            if let Some(route) = graph.dijkstra(from, to) {
                let labels = route.label_vec();
                assert!(labels.len() >= 2);
                assert_eq!(labels[0], from);
                assert_eq!(labels[labels.len() - 1], to);
                assert_eq!(route.end_label(), to);
            }
        }
    }
}

#[test]
fn found_route_follows_recorded_arcs() {
    let edges = fixture_edges();
    let graph = create_test_graph();
    for from in 0..8 {
        for to in 0..8 {
            if let Some(route) = graph.dijkstra(from, to) {
                let labels = route.label_vec();
                for pair in labels.windows(2) {
                    assert!(edges.iter().any(|&(s, t, _)| s == pair[0] && t == pair[1]));
                }
            }
        }
    }
}

#[test]
fn weight_matches_enumeration_of_all_paths() {
    let edges = fixture_edges();
    let graph = create_test_graph();
    for from in 0..10 {
        for to in 0..10 {
            let found = graph.dijkstra(from, to).map(|r| r.weight());
            let expected = if from == to { None } else { cheapest_between(&edges, from, to) };
            assert_eq!(found, expected, "from {} to {}", from, to);
        }
    }
}

#[test]
fn weight_matches_enumeration_on_a_dense_graph() {
    let mut edges: Vec<(Label, Label, Weight)> = Vec::new();
    for a in 0..6u32 {
        for b in 0..6u32 {
            if a != b {
                edges.push((a, b, (a * 7 + b * 13) % 11));
            }
        }
    }
    let graph = AdjacencyListBackedGraph::from_edges(edges.clone());
    for from in 0..6 {
        for to in 0..6 {
            let found = graph.dijkstra(from, to).map(|r| r.weight());
            let expected = if from == to { None } else { cheapest_between(&edges, from, to) };
            assert_eq!(found, expected, "from {} to {}", from, to);
        }
    }
}

#[test]
fn no_hand_built_route_is_cheaper() {
    let graph = create_test_graph();
    let found = graph.dijkstra(1, 4).unwrap().weight();
    // 1 -> 4 directly, and 1 -> 2 -> 3 -> 4.
    assert!(found <= 4);
    assert!(found <= 1 + 1 + 1);
    let found = graph.dijkstra(5, 4).unwrap();
    assert_eq!(found.label_vec(), vec![5, 6, 3, 4]);
    assert_eq!(found.weight(), 3);
    let found = graph.dijkstra(2, 4).unwrap();
    assert_eq!(found.weight(), 2);
    assert_eq!(found.label_vec(), vec![2, 3, 4]);
}

#[test]
fn unreachable_target_is_absent() {
    let graph = create_test_graph();
    // No arc enters 5.
    assert_eq!(graph.dijkstra(3, 5), None);
    // 9 occurs in no record.
    assert_eq!(graph.dijkstra(1, 9), None);
    // 4 is the source of no record.
    assert_eq!(graph.dijkstra(4, 3), None);
    // 3 leads only to 4.
    assert_eq!(graph.dijkstra(3, 1), None);
    let empty = AdjacencyListBackedGraph::from_edges(Vec::<(Label, Label, Weight)>::new());
    assert_eq!(empty.dijkstra(0, 1), None);
}

#[test]
fn repeated_search_gives_the_same_answer() {
    let graph = create_test_graph();
    for from in 0..8 {
        for to in 0..8 {
            assert_eq!(graph.dijkstra(from, to), graph.dijkstra(from, to));
        }
    }
}

#[test]
fn cheaper_of_two_parallel_arcs_is_taken() {
    let graph = AdjacencyListBackedGraph::from_edges(vec![(1, 2, 9), (1, 2, 3), (1, 2, 5)]);
    let route = graph.dijkstra(1, 2).unwrap();
    assert_eq!(route.weight(), 3);
    assert_eq!(route.label_vec(), vec![1, 2]);
}

#[test]
fn arcs_of_weight_zero_are_legal() {
    let graph = AdjacencyListBackedGraph::from_edges(vec![(1, 2, 0), (2, 3, 0), (1, 3, 1)]);
    let route = graph.dijkstra(1, 3).unwrap();
    assert_eq!(route.weight(), 0);
    assert_eq!(route.label_vec(), vec![1, 2, 3]);
}

#[test]
fn weights_beyond_thirty_two_bits_are_summed_exactly() {
    let max = u32::MAX;
    let graph = AdjacencyListBackedGraph::from_edges(vec![(1, 2, max), (2, 3, max), (3, 4, max)]);
    let route = graph.dijkstra(1, 4).unwrap();
    assert_eq!(route.label_vec(), vec![1, 2, 3, 4]);
    assert_eq!(route.weight(), 3 * (max as u64));
}

#[test]
fn later_cheaper_route_replaces_an_earlier_dearer_one() {
    // 1 -> 3 is pending at weight 10 when 1 -> 2 -> 3 arrives at weight 2.
    let graph = AdjacencyListBackedGraph::from_edges(vec![
        (1, 3, 10),
        (1, 2, 1),
        (2, 3, 1),
        (3, 4, 1),
        (3, 5, 20),
        (4, 5, 1),
    ]);
    let route = graph.dijkstra(1, 5).unwrap();
    assert_eq!(route.label_vec(), vec![1, 2, 3, 4, 5]);
    assert_eq!(route.weight(), 4);
}

#[test]
fn cycle_on_the_way_does_not_trap_the_search() {
    let graph = AdjacencyListBackedGraph::from_edges(vec![
        (1, 2, 1),
        (2, 3, 1),
        (3, 1, 1),
        (3, 2, 1),
        (3, 4, 5),
    ]);
    let route = graph.dijkstra(1, 4).unwrap();
    assert_eq!(route.label_vec(), vec![1, 2, 3, 4]);
    assert_eq!(route.weight(), 7);
    assert_eq!(graph.dijkstra(1, 9), None);
}

#[test]
fn large_sparse_labels_are_handled() {
    let graph = AdjacencyListBackedGraph::from_edges(vec![
        (u32::MAX, 0, 2),
        (0, 4_000_000_000, 3),
        (u32::MAX, 4_000_000_000, 6),
    ]);
    let route = graph.dijkstra(u32::MAX, 4_000_000_000).unwrap();
    assert_eq!(route.label_vec(), vec![u32::MAX, 0, 4_000_000_000]);
    assert_eq!(route.weight(), 5);
}

/// The least weight of a walk from `from` to each label below `labels`, found by relaxing
/// every edge until nothing changes.
fn cheapest_by_relaxation(
    edges: &[(Label, Label, Weight)],
    from: Label,
    labels: usize,
) -> Vec<Option<u64>> {
    let mut best: Vec<Option<u64>> = vec![None; labels];
    best[from as usize] = Some(0);
    loop {
        let mut changed = false;
        for &(source, target, weight) in edges {
            if let Some(so_far) = best[source as usize] {
                let through = so_far + weight as u64;
                if best[target as usize].map_or(true, |b| through < b) {
                    best[target as usize] = Some(through);
                    changed = true;
                }
            }
        }
        if !changed {
            return best;
        }
    }
}

#[test]
fn weight_matches_relaxation_on_a_larger_graph() {
    let labels: u32 = 120;
    let mut state: u64 = 0x2545_f491_4f6c_dd1d;
    let mut next = |bound: u32| -> u32 {
        state = state.wrapping_mul(6364136223846793005).wrapping_add(1442695040888963407);
        ((state >> 33) as u32) % bound
    };
    let mut edges: Vec<(Label, Label, Weight)> = Vec::new();
    for _ in 0..480 {
        let source = next(labels);
        let target = next(labels);
        let weight = next(50);
        edges.push((source, target, weight));
    }
    let graph = AdjacencyListBackedGraph::from_edges(edges.clone());
    for from in [0u32, 17, 63, 119] {
        let expected = cheapest_by_relaxation(&edges, from, labels as usize);
        for to in 0..labels {
            let found = graph.dijkstra(from, to);
            if from == to {
                assert_eq!(found, None);
            } else {
                assert_eq!(found.as_ref().map(|r| r.weight()), expected[to as usize]);
                if let Some(route) = found {
                    let path = route.label_vec();
                    assert_eq!(path[0], from);
                    assert_eq!(path[path.len() - 1], to);
                    let mut total: u64 = 0;
                    for pair in path.windows(2) {
                        let step = edges
                            .iter()
                            .filter(|&&(s, t, _)| s == pair[0] && t == pair[1])
                            .map(|&(_, _, w)| w as u64)
                            .min()
                            .unwrap();
                        total += step;
                    }
                    assert_eq!(total, route.weight());
                }
            }
        }
    }
}

#[test]
fn test_dijkstra() {
    // Five chains of unit arcs, two of which cross at 3545, with dearer shortcuts beside
    // them.
    let chains: Vec<Vec<Label>> = vec![
        vec![3144, 6784],
        vec![201, 12, 38, 1410, 2982, 3926, 4702, 1336, 2019, 13894, 17745, 19375, 4821, 5265, 8775],
        vec![23, 770, 1315, 2391, 3120, 3545, 8247, 8667, 23877],
        vec![0, 6, 5, 16, 100, 777, 4410, 3287, 9102, 49486, 49900],
        vec![7896, 21966, 20121, 3545, 422, 2, 48, 189, 297, 5547, 7542, 4361, 2417, 3681, 3693, 38949],
    ];
    let mut edges: Vec<(Label, Label, Weight)> = Vec::new();
    for chain in &chains {
        let last = chain.len() - 1;
        edges.push((chain[0], chain[last], 1000));
        for pair in chain.windows(2) {
            edges.push((pair[0], pair[1], 1));
            edges.push((pair[1], pair[0], 3));
        }
        if chain.len() > 4 {
            edges.push((chain[1], chain[last - 1], 500));
        }
    }
    let graph = AdjacencyListBackedGraph::from_edges(edges);
    assert_eq!(vec![3144, 6784], graph.dijkstra(3144, 6784).unwrap().label_vec());
    assert_eq!(vec![201, 12, 38, 1410, 2982, 3926, 4702, 1336, 2019, 13894, 17745, 19375, 4821, 5265, 8775], graph.dijkstra(201, 8775).unwrap().label_vec());
    assert_eq!(vec![23, 770, 1315, 2391, 3120, 3545, 8247, 8667, 23877], graph.dijkstra(23, 23877).unwrap().label_vec());
    assert_eq!(vec![0, 6, 5, 16, 100, 777, 4410, 3287, 9102, 49486, 49900], graph.dijkstra(0, 49900).unwrap().label_vec());
    assert_eq!(vec![7896, 21966, 20121, 3545, 422, 2, 48, 189, 297, 5547, 7542, 4361, 2417, 3681, 3693, 38949], graph.dijkstra(7896, 38949).unwrap().label_vec());
}
