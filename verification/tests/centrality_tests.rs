use hoopgraph::centrality::{calculate_centrality, Ratio, ScoredNode};
use hoopgraph::paths::CentralityError;
use hoopgraph::Graph;

fn ratio_f64(r: &Ratio) -> f64 {
    r.num as f64 / r.den as f64
}

fn score_of(rows: &[ScoredNode], id: u32) -> &ScoredNode {
    rows.iter().find(|s| s.node_id == id).expect("node missing from the report")
}

fn line_graph() -> Graph {
    // a - b - c with unit weights
    let mut g = Graph::new();
    g.add_node(1);
    g.add_node(2);
    g.add_node(3);
    g.add_edge(1, 2, 1);
    g.add_edge(2, 3, 1);
    g
}

#[test]
fn path_graph_scores() {
    // For a path graph a-b-c with unit weights: betweenness(b) = 1.0,
    // betweenness(a) = betweenness(c) = 0.0, closeness(b) = 1.0,
    // closeness(a) = closeness(c) = 2/3.
    let g = line_graph();
    let rows = calculate_centrality(&g, &Vec::new()).expect("scoring failed");
    assert_eq!(rows.len(), 3);
    assert_eq!(ratio_f64(&score_of(&rows, 2).betweenness), 1.0);
    assert_eq!(ratio_f64(&score_of(&rows, 1).betweenness), 0.0);
    assert_eq!(ratio_f64(&score_of(&rows, 3).betweenness), 0.0);
    assert_eq!(ratio_f64(&score_of(&rows, 2).closeness), 1.0);
    assert_eq!(ratio_f64(&score_of(&rows, 1).closeness), 2.0 / 3.0);
    assert_eq!(ratio_f64(&score_of(&rows, 3).closeness), 2.0 / 3.0);
}

#[test]
fn complete_graph_scores() {
    // complete graph on 4 nodes with uniform weight 5: betweenness of every
    // node is exactly 0 and closeness of every node is 1/5
    let mut g = Graph::new();
    for id in 1..=4u32 {
        g.add_node(id);
    }
    for a in 1..=4u32 {
        for b in 1..=4u32 {
            if a != b {
                g.add_edge(a, b, 5);
            }
        }
    }
    let rows = calculate_centrality(&g, &Vec::new()).expect("scoring failed");
    for row in &rows {
        assert_eq!(row.betweenness.num, 0);
        assert_eq!(ratio_f64(&row.closeness), 1.0 / 5.0);
    }
}

#[test]
fn two_node_graph_has_zero_betweenness() {
    // with fewer than three nodes betweenness is 0 for every node
    let mut g = Graph::new();
    g.add_node(1);
    g.add_node(2);
    g.add_edge(1, 2, 7);
    let rows = calculate_centrality(&g, &Vec::new()).expect("scoring failed");
    for row in &rows {
        assert_eq!(row.betweenness.num, 0);
        assert_eq!(row.betweenness.den, 1);
    }
    assert_eq!(ratio_f64(&score_of(&rows, 1).closeness), 1.0 / 7.0);
}

#[test]
fn isolated_node_has_zero_closeness() {
    let mut g = Graph::new();
    g.add_node(1);
    g.add_node(2);
    g.add_node(3);
    g.add_edge(1, 2, 4);
    let rows = calculate_centrality(&g, &Vec::new()).expect("scoring failed");
    let isolated = score_of(&rows, 3);
    assert_eq!(isolated.closeness.num, 0);
    assert_eq!(isolated.closeness.den, 1);
    assert_eq!(ratio_f64(&isolated.closeness), 0.0);
}

#[test]
fn empty_and_singleton_graphs_score_quietly() {
    let g = Graph::new();
    let rows = calculate_centrality(&g, &Vec::new()).expect("scoring failed");
    assert!(rows.is_empty());

    let mut g1 = Graph::new();
    g1.add_node(42);
    let rows1 = calculate_centrality(&g1, &Vec::new()).expect("scoring failed");
    assert_eq!(rows1.len(), 1);
    assert_eq!(ratio_f64(&rows1[0].betweenness), 0.0);
    assert_eq!(ratio_f64(&rows1[0].closeness), 0.0);
}

#[test]
fn rebuilding_reproduces_scores_bit_for_bit() {
    let build = || {
        let mut g = Graph::new();
        g.add_node(1);
        g.add_node(2);
        g.add_node(3);
        g.add_node(4);
        g.add_edge(1, 2, 3);
        g.add_edge(2, 3, 4);
        g.add_edge(3, 4, 5);
        g.add_edge(1, 4, 6);
        g
    };
    let labels = vec![(1u32, "one".to_string()), (3u32, "three".to_string())];
    let first = calculate_centrality(&build(), &labels).expect("scoring failed");
    let second = calculate_centrality(&build(), &labels).expect("scoring failed");
    assert_eq!(first.len(), second.len());
    for (a, b) in first.iter().zip(second.iter()) {
        assert_eq!(a.node_id, b.node_id);
        assert_eq!(a.label, b.label);
        assert_eq!(a.betweenness.num, b.betweenness.num);
        assert_eq!(a.betweenness.den, b.betweenness.den);
        assert_eq!(a.closeness.num, b.closeness.num);
        assert_eq!(a.closeness.den, b.closeness.den);
    }
}

#[test]
fn tied_shortest_paths_split_credit_proportionally() {
    // diamond: 1-2-4 and 1-3-4, unit weights; the two middle nodes each
    // carry half of the credit for the pair (1,4)
    let mut g = Graph::new();
    for id in 1..=4u32 {
        g.add_node(id);
    }
    g.add_edge(1, 2, 1);
    g.add_edge(1, 3, 1);
    g.add_edge(2, 4, 1);
    g.add_edge(3, 4, 1);
    let rows = calculate_centrality(&g, &Vec::new()).expect("scoring failed");
    // every node sits on one of the two tied shortest paths between its
    // two neighbours, earning half the credit for that ordered pair in
    // each direction: raw credit 1, normalized by (n-1)(n-2) = 6
    assert_eq!(ratio_f64(&score_of(&rows, 1).betweenness), 1.0 / 6.0);
    assert_eq!(ratio_f64(&score_of(&rows, 2).betweenness), 1.0 / 6.0);
    assert_eq!(ratio_f64(&score_of(&rows, 3).betweenness), 1.0 / 6.0);
    assert_eq!(ratio_f64(&score_of(&rows, 4).betweenness), 1.0 / 6.0);
    assert_eq!(ratio_f64(&score_of(&rows, 1).closeness), 3.0 / 4.0);
}

#[test]
fn shortest_path_table_is_exact() {
    let g = line_graph();
    let table = hoopgraph::paths::shortest_path_table(&g).expect("table failed");
    // node indices follow insertion order: 1, 2, 3
    assert_eq!(table.dist[0][0], Some(0));
    assert_eq!(table.dist[0][1], Some(1));
    assert_eq!(table.dist[0][2], Some(2));
    assert_eq!(table.dist[2][0], Some(2));
    // exactly one shortest path joins each pair
    assert_eq!(table.sigma[0][2], 1);
    assert_eq!(table.sigma[0][0], 1);
    // an unreachable node would count zero paths
    let mut g2 = Graph::new();
    g2.add_node(7);
    g2.add_node(8);
    let t2 = hoopgraph::paths::shortest_path_table(&g2).expect("table failed");
    assert_eq!(t2.dist[0][1], None);
    assert_eq!(t2.sigma[0][1], 0);
}

#[test]
fn negative_weight_is_a_configuration_error() {
    let mut g = Graph::new();
    g.add_node(1);
    g.add_node(2);
    g.add_edge(1, 2, -3);
    let r = calculate_centrality(&g, &Vec::new());
    assert!(matches!(r, Err(CentralityError::NegativeWeight)));
}

#[test]
fn labels_default_to_unknown() {
    let mut g = Graph::new();
    g.add_node(1);
    g.add_node(2);
    g.add_edge(1, 2, 1);
    let labels = vec![(1u32, "Point Guard".to_string())];
    let rows = calculate_centrality(&g, &labels).expect("scoring failed");
    assert_eq!(score_of(&rows, 1).label, "Point Guard");
    assert_eq!(score_of(&rows, 2).label, "Unknown");
}

#[test]
fn unreachable_pairs_contribute_nothing() {
    // two disjoint edges: each node reaches exactly one other node
    let mut g = Graph::new();
    for id in 1..=4u32 {
        g.add_node(id);
    }
    g.add_edge(1, 2, 2);
    g.add_edge(3, 4, 2);
    let rows = calculate_centrality(&g, &Vec::new()).expect("scoring failed");
    for row in &rows {
        assert_eq!(row.betweenness.num, 0);
        assert_eq!(ratio_f64(&row.closeness), 0.5);
    }
}
