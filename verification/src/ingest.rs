//! Row-level coercion policy for ingested data.
//!
//! A raw field is either missing (the source wrote a placeholder), bad
//! (present but unreadable), or a value in the caller's fixed-point scale.
//! These functions pin down exactly which rows are kept, skipped, or abort
//! the load, and which defaults replace missing data.

use vstd::prelude::*;

use crate::records::Player;
use crate::records::Team;

verus! {

/// One raw statistic field of an input row.
#[derive(Clone, Copy, Debug, PartialEq, Eq, Structural)]
pub enum RawStat {
    Missing,
    Bad,
    Value(i64),
}

/// Default applied to a player's statistic: missing and unreadable fields
/// both fall back to zero.
pub open spec fn player_stat_default(s: RawStat) -> i64 {
    match s {
        RawStat::Value(v) => v,
        _ => 0,
    }
}

/// What became of one input row.
#[derive(Debug)]
pub enum PlayerRowOutcome {
    Keep(Player),
    Skip,
    Abort,
}

/// What became of one team row.
#[derive(Debug)]
pub enum TeamRowOutcome {
    Keep(Team),
    Skip,
    Abort,
}

/// Builds a player record from a row's parsed parts. A row without a
/// readable id is skipped; one without a readable season aborts the load;
/// missing or unreadable statistics fall back to zero.
pub fn player_from_parts(
    id: Option<u32>,
    season: Option<u32>,
    name: String,
    team_abbreviation: String,
    fg: RawStat,
    x2p: RawStat,
    x3p: RawStat,
) -> (r: PlayerRowOutcome)
    ensures
        id is None ==> r is Skip,
        id is Some && season is None ==> r is Abort,
        id is Some && season is Some ==> (r matches PlayerRowOutcome::Keep(p) && p.id == id->0
            && p.season == season->0 && p.name@ == name@ && p.team_abbreviation@
            == team_abbreviation@ && p.fg_percent == player_stat_default(fg)
            && p.fg_percent_from_x2p_range == player_stat_default(x2p)
            && p.fg_percent_from_x3p_range == player_stat_default(x3p)),
{
    let id = match id {
        Some(v) => v,
        None => {
            return PlayerRowOutcome::Skip;
        },
    };
    let season = match season {
        Some(v) => v,
        None => {
            return PlayerRowOutcome::Abort;
        },
    };
    PlayerRowOutcome::Keep(
        Player {
            id,
            name,
            team_abbreviation,
            season,
            fg_percent: stat_or_zero(fg),
            fg_percent_from_x2p_range: stat_or_zero(x2p),
            fg_percent_from_x3p_range: stat_or_zero(x3p),
        },
    )
}

/// The player default policy, executable.
fn stat_or_zero(s: RawStat) -> (r: i64)
    ensures
        r == player_stat_default(s),
{
    match s {
        RawStat::Value(v) => v,
        _ => 0,
    }
}

/// Builds a team record from a row's parsed parts. A row without a
/// readable playoff flag is skipped, as is one with an unreadable
/// statistic; a missing statistic falls back to zero; a row without a
/// readable season aborts the load.
pub fn team_from_parts(
    abbreviation: String,
    name: String,
    season: Option<u32>,
    playoffs: Option<bool>,
    fg: RawStat,
    x2p: RawStat,
    x3p: RawStat,
    ppg: RawStat,
) -> (r: TeamRowOutcome)
    ensures
        playoffs is None ==> r is Skip,
        playoffs is Some && (fg is Bad || x2p is Bad || x3p is Bad || ppg is Bad) ==> r is Skip,
        playoffs is Some && !(fg is Bad || x2p is Bad || x3p is Bad || ppg is Bad) && season
            is None ==> r is Abort,
        playoffs is Some && !(fg is Bad || x2p is Bad || x3p is Bad || ppg is Bad) && season
            is Some ==> (r matches TeamRowOutcome::Keep(t) && t.abbreviation@ == abbreviation@
            && t.name@ == name@ && t.season == season->0 && t.playoffs == playoffs->0
            && t.fg_percentage == player_stat_default(fg) && t.two_point_percentage
            == player_stat_default(x2p) && t.three_point_percentage == player_stat_default(x3p)
            && t.points_per_game == player_stat_default(ppg)),
{
    let playoffs = match playoffs {
        Some(v) => v,
        None => {
            return TeamRowOutcome::Skip;
        },
    };
    let fg = match fg {
        RawStat::Value(v) => v,
        RawStat::Missing => 0,
        RawStat::Bad => {
            return TeamRowOutcome::Skip;
        },
    };
    let x2p = match x2p {
        RawStat::Value(v) => v,
        RawStat::Missing => 0,
        RawStat::Bad => {
            return TeamRowOutcome::Skip;
        },
    };
    let x3p = match x3p {
        RawStat::Value(v) => v,
        RawStat::Missing => 0,
        RawStat::Bad => {
            return TeamRowOutcome::Skip;
        },
    };
    let ppg = match ppg {
        RawStat::Value(v) => v,
        RawStat::Missing => 0,
        RawStat::Bad => {
            return TeamRowOutcome::Skip;
        },
    };
    let season = match season {
        Some(v) => v,
        None => {
            return TeamRowOutcome::Abort;
        },
    };
    TeamRowOutcome::Keep(
        Team {
            abbreviation,
            name,
            season,
            playoffs,
            fg_percentage: fg,
            two_point_percentage: x2p,
            three_point_percentage: x3p,
            points_per_game: ppg,
        },
    )
}

} // verus!