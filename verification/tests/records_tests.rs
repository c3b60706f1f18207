use hoopgraph::correlate::{collect_playoff_series, correlate_statistics};
use hoopgraph::ingest::{player_from_parts, team_from_parts, PlayerRowOutcome, RawStat, TeamRowOutcome};
use hoopgraph::records::{filter_data_by_season, merge_data, MergedData, Player, Team};

const SCALE: f64 = 1_000_000.0;

fn fx(x: f64) -> i64 {
    (x * SCALE).round() as i64
}

fn player(id: u32, name: &str, abbrev: &str, season: u32, fg: f64, x2p: f64, x3p: f64) -> Player {
    Player {
        id,
        name: name.to_string(),
        team_abbreviation: abbrev.to_string(),
        season,
        fg_percent: fx(fg),
        fg_percent_from_x2p_range: fx(x2p),
        fg_percent_from_x3p_range: fx(x3p),
    }
}

fn team(abbrev: &str, name: &str, season: u32, playoffs: bool, ppg: f64) -> Team {
    Team {
        abbreviation: abbrev.to_string(),
        name: name.to_string(),
        season,
        playoffs,
        fg_percentage: fx(0.45),
        two_point_percentage: fx(0.55),
        three_point_percentage: fx(0.35),
        points_per_game: fx(ppg),
    }
}

#[test]
fn test_correlate_statistics() {
    let player1 = player(1, "Player 1", "TEA", 2022, 0.5, 0.6, 0.4);
    let team1 = team("TEA", "Team A", 2022, true, 100.0);
    let merged_data = vec![MergedData { player: player1, team: team1 }];

    let correlation_results = correlate_statistics(&merged_data);

    assert_eq!(correlation_results.len(), 6);
    assert_eq!(correlation_results[0].statistic_name, "FG Percent Diff");
    assert_eq!(correlation_results[1].statistic_name, "FG Percent Ratio");
    // the diff and ratio are exact fractions
    assert_eq!(correlation_results[0].num, (fx(0.5) - fx(0.45)) as i128);
    assert_eq!(correlation_results[0].den, 1);
    assert_eq!(correlation_results[1].num, fx(0.5) as i128);
    assert_eq!(correlation_results[1].den, fx(0.45) as i128);
    assert_eq!(correlation_results[4].statistic_name, "FG Percent from 3P Range Diff");
    assert_eq!(correlation_results[4].num, (fx(0.4) - fx(0.35)) as i128);
}

#[test]
fn merge_pairs_players_with_their_team() {
    let players = vec![
        player(1, "One", "TEA", 2022, 0.5, 0.6, 0.4),
        player(2, "Two", "TEB", 2022, 0.5, 0.6, 0.4),
        player(3, "Three", "TEA", 2022, 0.5, 0.6, 0.4),
    ];
    let teams = vec![team("TEA", "Team A", 2022, true, 100.0), team("TEB", "Team B", 2022, false, 90.0)];
    let merged = merge_data(&players, &teams);
    assert_eq!(merged.len(), 3);
    // team order first, then player order
    assert_eq!(merged[0].player.id, 1);
    assert_eq!(merged[0].team.abbreviation, "TEA");
    assert_eq!(merged[1].player.id, 3);
    assert_eq!(merged[1].team.abbreviation, "TEA");
    assert_eq!(merged[2].player.id, 2);
    assert_eq!(merged[2].team.abbreviation, "TEB");
}

#[test]
fn merge_drops_players_without_a_team_row() {
    let players = vec![player(1, "One", "ZZZ", 2022, 0.5, 0.6, 0.4)];
    let teams = vec![team("TEA", "Team A", 2022, true, 100.0)];
    let merged = merge_data(&players, &teams);
    assert!(merged.is_empty());
}

#[test]
fn season_filter_groups_by_team() {
    let players = vec![
        player(1, "One", "TEA", 2022, 0.5, 0.6, 0.4),
        player(2, "Two", "TEB", 2022, 0.5, 0.6, 0.4),
        player(3, "Three", "TEA", 2022, 0.5, 0.6, 0.4),
        player(4, "Old", "TEA", 2021, 0.5, 0.6, 0.4),
    ];
    let teams = vec![
        team("TEA", "Team A", 2022, true, 100.0),
        team("TEB", "Team B", 2021, false, 90.0),
    ];
    let (groups, season_teams) = filter_data_by_season(&players, &teams, 2022);
    assert_eq!(season_teams.len(), 1);
    assert_eq!(season_teams[0].abbreviation, "TEA");
    assert_eq!(groups.len(), 2);
    assert_eq!(groups[0].abbreviation, "TEA");
    assert_eq!(groups[0].players.len(), 2);
    assert_eq!(groups[0].players[0].id, 1);
    assert_eq!(groups[0].players[1].id, 3);
    assert_eq!(groups[1].abbreviation, "TEB");
    assert_eq!(groups[1].players.len(), 1);
    assert_eq!(groups[1].players[0].id, 2);
}

#[test]
fn playoff_series_lines_up_columns() {
    let merged = vec![
        MergedData {
            player: player(1, "One", "TEA", 2022, 0.5, 0.6, 0.4),
            team: team("TEA", "Team A", 2022, true, 100.0),
        },
        MergedData {
            player: player(2, "Two", "TEB", 2022, 0.51, 0.61, 0.41),
            team: team("TEB", "Team B", 2022, false, 90.0),
        },
    ];
    let series = collect_playoff_series(&merged);
    assert_eq!(series.fg, vec![fx(0.5), fx(0.51)]);
    assert_eq!(series.x2p, vec![fx(0.6), fx(0.61)]);
    assert_eq!(series.x3p, vec![fx(0.4), fx(0.41)]);
    assert_eq!(series.playoffs, vec![true, false]);
}

#[test]
fn player_row_policy() {
    // no readable id: the row is skipped
    let r = player_from_parts(
        None,
        Some(2022),
        "A".to_string(),
        "TEA".to_string(),
        RawStat::Value(1),
        RawStat::Value(2),
        RawStat::Value(3),
    );
    assert!(matches!(r, PlayerRowOutcome::Skip));
    // no readable season: the load aborts
    let r = player_from_parts(
        Some(9),
        None,
        "A".to_string(),
        "TEA".to_string(),
        RawStat::Value(1),
        RawStat::Value(2),
        RawStat::Value(3),
    );
    assert!(matches!(r, PlayerRowOutcome::Abort));
    // missing and unreadable stats default to zero
    let r = player_from_parts(
        Some(9),
        Some(2022),
        "A".to_string(),
        "TEA".to_string(),
        RawStat::Missing,
        RawStat::Bad,
        RawStat::Value(7),
    );
    match r {
        PlayerRowOutcome::Keep(p) => {
            assert_eq!(p.id, 9);
            assert_eq!(p.season, 2022);
            assert_eq!(p.fg_percent, 0);
            assert_eq!(p.fg_percent_from_x2p_range, 0);
            assert_eq!(p.fg_percent_from_x3p_range, 7);
        }
        _ => panic!("row should have been kept"),
    }
}

#[test]
fn team_row_policy() {
    // an unreadable playoff flag skips the row
    let r = team_from_parts(
        "TEA".to_string(),
        "Team A".to_string(),
        Some(2022),
        None,
        RawStat::Value(1),
        RawStat::Value(2),
        RawStat::Value(3),
        RawStat::Value(4),
    );
    assert!(matches!(r, TeamRowOutcome::Skip));
    // an unreadable statistic skips the row; a missing one defaults to zero
    let r = team_from_parts(
        "TEA".to_string(),
        "Team A".to_string(),
        Some(2022),
        Some(true),
        RawStat::Bad,
        RawStat::Value(2),
        RawStat::Value(3),
        RawStat::Value(4),
    );
    assert!(matches!(r, TeamRowOutcome::Skip));
    let r = team_from_parts(
        "TEA".to_string(),
        "Team A".to_string(),
        None,
        Some(true),
        RawStat::Missing,
        RawStat::Value(2),
        RawStat::Value(3),
        RawStat::Value(4),
    );
    assert!(matches!(r, TeamRowOutcome::Abort));
    let r = team_from_parts(
        "TEA".to_string(),
        "Team A".to_string(),
        Some(2022),
        Some(false),
        RawStat::Missing,
        RawStat::Value(2),
        RawStat::Value(3),
        RawStat::Value(4),
    );
    match r {
        TeamRowOutcome::Keep(t) => {
            assert_eq!(t.season, 2022);
            assert!(!t.playoffs);
            assert_eq!(t.fg_percentage, 0);
            assert_eq!(t.two_point_percentage, 2);
            assert_eq!(t.three_point_percentage, 3);
            assert_eq!(t.points_per_game, 4);
        }
        _ => panic!("row should have been kept"),
    }
}

#[test]
fn merge_requires_matching_season() {
    // linkage joins by abbreviation and season: a team row from another
    // season does not claim the player
    let players = vec![player(1, "One", "TEA", 2021, 0.5, 0.6, 0.4)];
    let teams = vec![team("TEA", "Team A", 2022, true, 100.0)];
    let merged = merge_data(&players, &teams);
    assert!(merged.is_empty());
}
