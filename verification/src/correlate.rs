//! Per-player comparisons of shooting statistics against team statistics.
//!
//! Each comparison is an exact rational: differences come out over a
//! denominator of one, ratios keep the team statistic as denominator (a
//! zero denominator mirrors a comparison against a zero team statistic).
//! The series collector lines up the columns a correlation analysis needs.

use vstd::prelude::*;

use crate::records::MergedData;

verus! {

/// One labelled comparison between a player statistic and the matching
/// team statistic, as the exact fraction `num / den`.
#[derive(Debug)]
pub struct CorrelationResult {
    pub player_id: u32,
    pub player_name: String,
    pub team_name: String,
    pub statistic_name: String,
    pub num: i128,
    pub den: i128,
}

/// Name of the `m`-th comparison made for every record.
pub open spec fn stat_name_spec(m: int) -> Seq<char> {
    if m == 0 {
        "FG Percent Diff"@
    } else if m == 1 {
        "FG Percent Ratio"@
    } else if m == 2 {
        "FG Percent from 2P Range Diff"@
    } else if m == 3 {
        "FG Percent from 2P Range Ratio"@
    } else if m == 4 {
        "FG Percent from 3P Range Diff"@
    } else {
        "FG Percent from 3P Range Ratio"@
    }
}

/// Exact value of the `m`-th comparison for one record.
pub open spec fn coeff_spec(d: MergedData, m: int) -> (int, int) {
    if m == 0 {
        (d.player.fg_percent - d.team.fg_percentage, 1int)
    } else if m == 1 {
        (d.player.fg_percent as int, d.team.fg_percentage as int)
    } else if m == 2 {
        (d.player.fg_percent_from_x2p_range - d.team.two_point_percentage, 1int)
    } else if m == 3 {
        (d.player.fg_percent_from_x2p_range as int, d.team.two_point_percentage as int)
    } else if m == 4 {
        (d.player.fg_percent_from_x3p_range - d.team.three_point_percentage, 1int)
    } else {
        (d.player.fg_percent_from_x3p_range as int, d.team.three_point_percentage as int)
    }
}

/// The entry `e` is the `m`-th comparison of the record `d`.
pub open spec fn entry_matches(e: CorrelationResult, d: MergedData, m: int) -> bool {
    &&& e.player_id == d.player.id
    &&& e.player_name@ == d.player.name@
    &&& e.team_name@ == d.team.name@
    &&& e.statistic_name@ == stat_name_spec(m)
    &&& e.num as int == coeff_spec(d, m).0
    &&& e.den as int == coeff_spec(d, m).1
}

/// Produces, for every joined record in order, its six labelled
/// comparisons in a fixed order: difference and ratio for overall,
/// two-point, and three-point field-goal percentages.
pub fn correlate_statistics(merged_data: &[MergedData]) -> (r: Vec<CorrelationResult>)
    ensures
        r@.len() == 6 * merged_data@.len(),
        forall|k: int, m: int|
            0 <= k < merged_data@.len() && 0 <= m < 6 ==> entry_matches(
                #[trigger] r@[6 * k + m],
                merged_data@[k],
                m,
            ),
{
    let mut r: Vec<CorrelationResult> = Vec::new();
    let n = merged_data.len();
    let mut k: usize = 0;
    while k < n
        invariant
            n == merged_data@.len(),
            k <= n,
            r@.len() == 6 * k,
            forall|k2: int, m: int|
                0 <= k2 < k && 0 <= m < 6 ==> entry_matches(
                    #[trigger] r@[6 * k2 + m],
                    merged_data@[k2],
                    m,
                ),
        decreases n - k,
    {
        let ghost prev = r@;
        let d = &merged_data[k];
        r.push(
            CorrelationResult {
                player_id: d.player.id,
                player_name: d.player.name.clone(),
                team_name: d.team.name.clone(),
                statistic_name: "FG Percent Diff".to_owned(),
                num: d.player.fg_percent as i128 - d.team.fg_percentage as i128,
                den: 1,
            },
        );
        r.push(
            CorrelationResult {
                player_id: d.player.id,
                player_name: d.player.name.clone(),
                team_name: d.team.name.clone(),
                statistic_name: "FG Percent Ratio".to_owned(),
                num: d.player.fg_percent as i128,
                den: d.team.fg_percentage as i128,
            },
        );
        r.push(
            CorrelationResult {
                player_id: d.player.id,
                player_name: d.player.name.clone(),
                team_name: d.team.name.clone(),
                statistic_name: "FG Percent from 2P Range Diff".to_owned(),
                num: d.player.fg_percent_from_x2p_range as i128
                    - d.team.two_point_percentage as i128,
                den: 1,
            },
        );
        r.push(
            CorrelationResult {
                player_id: d.player.id,
                player_name: d.player.name.clone(),
                team_name: d.team.name.clone(),
                statistic_name: "FG Percent from 2P Range Ratio".to_owned(),
                num: d.player.fg_percent_from_x2p_range as i128,
                den: d.team.two_point_percentage as i128,
            },
        );
        r.push(
            CorrelationResult {
                player_id: d.player.id,
                player_name: d.player.name.clone(),
                team_name: d.team.name.clone(),
                statistic_name: "FG Percent from 3P Range Diff".to_owned(),
                num: d.player.fg_percent_from_x3p_range as i128
                    - d.team.three_point_percentage as i128,
                den: 1,
            },
        );
        r.push(
            CorrelationResult {
                player_id: d.player.id,
                player_name: d.player.name.clone(),
                team_name: d.team.name.clone(),
                statistic_name: "FG Percent from 3P Range Ratio".to_owned(),
                num: d.player.fg_percent_from_x3p_range as i128,
                den: d.team.three_point_percentage as i128,
            },
        );
        proof {
            assert(r@.len() == 6 * k + 6);
            assert(forall|x: int| 0 <= x < prev.len() ==> #[trigger] r@[x] == prev[x]);
            assert forall|m: int| 0 <= m < 6 implies entry_matches(
                #[trigger] r@[6 * (k as int) + m],
                merged_data@[k as int],
                m,
            ) by {
                assert(r@[6 * (k as int)] == r@[prev.len() as int]);
                assert(entry_matches(r@[6 * (k as int) + 0], merged_data@[k as int], 0));
                assert(entry_matches(r@[6 * (k as int) + 1], merged_data@[k as int], 1));
                assert(entry_matches(r@[6 * (k as int) + 2], merged_data@[k as int], 2));
                assert(entry_matches(r@[6 * (k as int) + 3], merged_data@[k as int], 3));
                assert(entry_matches(r@[6 * (k as int) + 4], merged_data@[k as int], 4));
                assert(entry_matches(r@[6 * (k as int) + 5], merged_data@[k as int], 5));
            }
        }
        k = k + 1;
    }
    r
}

/// The aligned columns a playoff-correlation analysis consumes: one row
/// per record, with the three player percentages and the team's playoff
/// flag.
#[derive(Debug)]
pub struct PlayoffSeries {
    pub fg: Vec<i64>,
    pub x2p: Vec<i64>,
    pub x3p: Vec<i64>,
    pub playoffs: Vec<bool>,
}

/// Collects the statistic columns used to correlate player shooting with
/// the team's playoff outcome, one entry per record, in order.
pub fn collect_playoff_series(merged_data: &[MergedData]) -> (r: PlayoffSeries)
    ensures
        r.fg@.len() == merged_data@.len(),
        r.x2p@.len() == merged_data@.len(),
        r.x3p@.len() == merged_data@.len(),
        r.playoffs@.len() == merged_data@.len(),
        forall|k: int|
            0 <= k < merged_data@.len() ==> r.fg@[k] == (#[trigger] merged_data@[k]).player.fg_percent
                && r.x2p@[k] == merged_data@[k].player.fg_percent_from_x2p_range
                && r.x3p@[k] == merged_data@[k].player.fg_percent_from_x3p_range
                && r.playoffs@[k] == merged_data@[k].team.playoffs,
{
    let n = merged_data.len();
    let mut fg: Vec<i64> = Vec::new();
    let mut x2p: Vec<i64> = Vec::new();
    let mut x3p: Vec<i64> = Vec::new();
    let mut playoffs: Vec<bool> = Vec::new();
    let mut k: usize = 0;
    while k < n
        invariant
            n == merged_data@.len(),
            k <= n,
            fg@.len() == k,
            x2p@.len() == k,
            x3p@.len() == k,
            playoffs@.len() == k,
            forall|x: int|
                0 <= x < k ==> fg@[x] == (#[trigger] merged_data@[x]).player.fg_percent
                    && x2p@[x] == merged_data@[x].player.fg_percent_from_x2p_range
                    && x3p@[x] == merged_data@[x].player.fg_percent_from_x3p_range
                    && playoffs@[x] == merged_data@[x].team.playoffs,
        decreases n - k,
    {
        fg.push(merged_data[k].player.fg_percent);
        x2p.push(merged_data[k].player.fg_percent_from_x2p_range);
        x3p.push(merged_data[k].player.fg_percent_from_x3p_range);
        playoffs.push(merged_data[k].team.playoffs);
        k = k + 1;
    }
    PlayoffSeries { fg, x2p, x3p, playoffs }
}

} // verus!