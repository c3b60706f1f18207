use hoopgraph::graph::EdgePolicy;
use hoopgraph::records::{MergedData, Player, Team};
use hoopgraph::Graph;

const SCALE: f64 = 1_000_000.0;

fn fx(x: f64) -> i64 {
    (x * SCALE).round() as i64
}

fn player(id: u32, name: &str, abbrev: &str, season: u32, fg: f64, x2p: f64, x3p: f64) -> Player {
    Player {
        id,
        name: name.to_string(),
        team_abbreviation: abbrev.to_string(),
        season,
        fg_percent: fx(fg),
        fg_percent_from_x2p_range: fx(x2p),
        fg_percent_from_x3p_range: fx(x3p),
    }
}

fn team(abbrev: &str, name: &str, season: u32, playoffs: bool, fg: f64, x2p: f64, x3p: f64, ppg: f64) -> Team {
    Team {
        abbreviation: abbrev.to_string(),
        name: name.to_string(),
        season,
        playoffs,
        fg_percentage: fx(fg),
        two_point_percentage: fx(x2p),
        three_point_percentage: fx(x3p),
        points_per_game: fx(ppg),
    }
}

#[test]
fn test_add_node() {
    let mut graph = Graph::new();
    let node_id = 1;
    let _node_index = graph.add_node(node_id);
    assert_eq!(graph.node_count(), 1);
    assert_eq!(graph.get_node_weight(node_id), Some(node_id));
}

#[test]
fn test_add_edge() {
    let mut graph = Graph::new();
    let source_id = 1;
    let target_id = 2;
    let weight = fx(0.5);
    let _source_node = graph.add_node(source_id);
    let _target_node = graph.add_node(target_id);
    graph.add_edge(source_id, target_id, weight);
    assert_eq!(graph.edge_count(), 1);
    if let Some(stored) = graph.edge_weight(source_id, target_id) {
        assert_eq!(stored, weight);
    } else {
        panic!("Edge not found between source and target nodes");
    }
}

#[test]
fn test_construct_from_data() {
    let mut graph = Graph::new();
    let player1 = player(1, "Player 1", "TEA", 2022, 0.5, 0.6, 0.4);
    let player2 = player(2, "Player 2", "TEA", 2022, 0.6, 0.7, 0.5);
    let team_a = team("TEA", "Team A", 2022, true, 0.55, 0.65, 0.45, 100.0);
    let merged_data = vec![
        MergedData { player: player1, team: team_a.duplicate() },
        MergedData { player: player2, team: team_a },
    ];
    graph.construct_from_data(&merged_data);
    assert_eq!(graph.node_count(), 2);
    assert_eq!(graph.edge_count(), 2);
}

#[test]
fn test_get_node_weight() {
    let mut graph = Graph::new();
    let node_id = 1;
    let _node_index = graph.add_node(node_id);
    assert_eq!(graph.get_node_weight(node_id), Some(node_id));
}

#[test]
fn test_get_neighbors() {
    let mut graph = Graph::new();
    let node1_id = 1;
    let node2_id = 2;
    let node3_id = 3;
    graph.add_node(node1_id);
    graph.add_node(node2_id);
    graph.add_node(node3_id);
    graph.add_edge(node1_id, node2_id, fx(0.5));
    graph.add_edge(node1_id, node3_id, fx(0.7));
    let neighbors = graph.get_neighbors(node1_id);
    assert_eq!(neighbors.len(), 2);
    assert!(neighbors.contains(&node2_id));
    assert!(neighbors.contains(&node3_id));
}

#[test]
fn test_add_node_is_idempotent() {
    let mut graph = Graph::new();
    let first = graph.add_node(7);
    let second = graph.add_node(7);
    assert_eq!(first, second);
    assert_eq!(graph.node_count(), 1);
}

#[test]
fn test_add_edge_rejects_self_loop() {
    let mut graph = Graph::new();
    graph.add_node(1);
    graph.add_edge(1, 1, 10);
    assert_eq!(graph.edge_count(), 0);
    assert_eq!(graph.edge_weight(1, 1), None);
}

#[test]
fn test_add_edge_keeps_first_record_for_a_pair() {
    let mut graph = Graph::new();
    graph.add_node(1);
    graph.add_node(2);
    graph.add_edge(1, 2, 10);
    graph.add_edge(1, 2, 99);
    assert_eq!(graph.edge_count(), 1);
    assert_eq!(graph.edge_weight(1, 2), Some(10));
}

#[test]
fn test_calculate_weight_formula() {
    // weight = 0.5|fg1-fg2| + 0.3|ppg1-ppg2| + 0.2|3p1-3p2|
    let team_a = team("TEA", "Team A", 2022, true, 0.55, 0.65, 0.45, 100.0);
    let team_b = team("TEB", "Team B", 2022, false, 0.50, 0.60, 0.40, 90.0);
    let d1 = MergedData { player: player(1, "One", "TEA", 2022, 0.50, 0.60, 0.35), team: team_a };
    let d2 = MergedData { player: player(2, "Two", "TEB", 2022, 0.56, 0.62, 0.41), team: team_b };
    let w = Graph::calculate_weight(&d1, &d2);
    // tenths of a millionth of a unit
    let expected = 0.5 * 0.06 + 0.3 * 10.0 + 0.2 * 0.06;
    assert!(((w as f64) * 1e-7 - expected).abs() < 1e-9);
}

#[test]
fn test_similarity_clique_weights() {
    // two teams, three players each, similarity-mode weights by the formula
    let team_a = team("TEA", "Team A", 2022, true, 0.5, 0.6, 0.4, 100.0);
    let team_b = team("TEB", "Team B", 2022, false, 0.5, 0.6, 0.4, 100.0);
    let fgs = [0.50, 0.55, 0.60];
    let tps = [0.35, 0.40, 0.45];
    let mut merged = Vec::new();
    for (k, (fg, tp)) in fgs.iter().zip(tps.iter()).enumerate() {
        merged.push(MergedData {
            player: player(1 + k as u32, "A", "TEA", 2022, *fg, 0.6, *tp),
            team: team_a.duplicate(),
        });
    }
    for (k, (fg, tp)) in fgs.iter().zip(tps.iter()).enumerate() {
        merged.push(MergedData {
            player: player(4 + k as u32, "B", "TEB", 2022, *fg, 0.6, *tp),
            team: team_b.duplicate(),
        });
    }
    let mut graph = Graph::new();
    graph.construct_from_data(&merged);
    assert_eq!(graph.node_count(), 6);
    // each team clique has three undirected edges, recorded in both directions
    assert_eq!(graph.edge_count(), 12);
    for base in [1u32, 4u32] {
        let w12 = graph.edge_weight(base, base + 1).expect("edge") as f64 * 1e-7;
        let w23 = graph.edge_weight(base + 1, base + 2).expect("edge") as f64 * 1e-7;
        let w13 = graph.edge_weight(base, base + 2).expect("edge") as f64 * 1e-7;
        assert!((w12 - (0.5 * 0.05 + 0.2 * 0.05)).abs() < 1e-9);
        assert!((w23 - (0.5 * 0.05 + 0.2 * 0.05)).abs() < 1e-9);
        assert!((w13 - (0.5 * 0.10 + 0.2 * 0.10)).abs() < 1e-9);
        // teammates whose teams tie on points per game get no contribution
        // from the points-per-game term: 0.035 exactly, in tenth-millionths
        assert_eq!(graph.edge_weight(base, base + 1), Some(350_000));
    }
    // no edges across teams
    assert_eq!(graph.edge_weight(1, 4), None);
}

#[test]
fn test_plays_for_policy_builds_star() {
    let team_a = team("TEA", "Team A", 2022, true, 0.5, 0.6, 0.4, 100.0);
    let merged = vec![
        MergedData { player: player(1, "One", "TEA", 2022, 0.5, 0.6, 0.4), team: team_a.duplicate() },
        MergedData { player: player(2, "Two", "TEA", 2022, 0.5, 0.6, 0.4), team: team_a },
    ];
    let mut graph = Graph::new();
    graph.construct_with_policy(&merged, EdgePolicy::PlaysFor(1_000_000), 2022);
    // the team node id is the byte sum of the abbreviation
    let tid: u32 = "TEA".bytes().map(|b| b as u32).sum();
    assert_eq!(graph.node_count(), 3);
    assert_eq!(graph.edge_weight(1, tid), Some(1_000_000));
    assert_eq!(graph.edge_weight(2, tid), Some(1_000_000));
    assert_eq!(graph.edge_weight(1, 2), None);
}

#[test]
fn test_construct_filters_other_seasons() {
    let team_a = team("TEA", "Team A", 2021, true, 0.5, 0.6, 0.4, 100.0);
    let merged = vec![
        MergedData { player: player(1, "One", "TEA", 2021, 0.5, 0.6, 0.4), team: team_a },
    ];
    let mut graph = Graph::new();
    graph.construct_from_data(&merged);
    assert_eq!(graph.node_count(), 0);
    assert_eq!(graph.edge_count(), 0);
}
