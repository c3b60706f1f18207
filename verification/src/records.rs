//! Player and team season records, their join, and season filtering.
//!
//! Shooting statistics are fixed-point integers: the caller picks one scale
//! (for instance millionths) and uses it for every percentage and for points
//! per game. All record handling is exact.

use vstd::prelude::*;

verus! {

/// One player's season shooting line.
#[derive(Debug)]
pub struct Player {
    pub id: u32,
    pub name: String,
    pub team_abbreviation: String,
    pub season: u32,
    pub fg_percent: i64,
    pub fg_percent_from_x2p_range: i64,
    pub fg_percent_from_x3p_range: i64,
}

/// One team's season line.
#[derive(Debug)]
pub struct Team {
    pub abbreviation: String,
    pub name: String,
    pub season: u32,
    pub playoffs: bool,
    pub fg_percentage: i64,
    pub two_point_percentage: i64,
    pub three_point_percentage: i64,
    pub points_per_game: i64,
}

/// A player joined with the team row it belongs to.
#[derive(Debug)]
pub struct MergedData {
    pub player: Player,
    pub team: Team,
}

impl Player {
    /// An exact copy.
    pub fn duplicate(&self) -> (r: Player)
        ensures
            r == *self,
    {
        Player {
            id: self.id,
            name: self.name.clone(),
            team_abbreviation: self.team_abbreviation.clone(),
            season: self.season,
            fg_percent: self.fg_percent,
            fg_percent_from_x2p_range: self.fg_percent_from_x2p_range,
            fg_percent_from_x3p_range: self.fg_percent_from_x3p_range,
        }
    }
}

impl Team {
    /// An exact copy.
    pub fn duplicate(&self) -> (r: Team)
        ensures
            r == *self,
    {
        Team {
            abbreviation: self.abbreviation.clone(),
            name: self.name.clone(),
            season: self.season,
            playoffs: self.playoffs,
            fg_percentage: self.fg_percentage,
            two_point_percentage: self.two_point_percentage,
            three_point_percentage: self.three_point_percentage,
            points_per_game: self.points_per_game,
        }
    }
}

impl MergedData {
    /// An exact copy.
    pub fn duplicate(&self) -> (r: MergedData)
        ensures
            r == *self,
    {
        MergedData { player: self.player.duplicate(), team: self.team.duplicate() }
    }
}

/// The players belonging to the one team `t` (same abbreviation and same
/// season), joined with it, in player order.
pub open spec fn merged_of_team(ps: Seq<Player>, t: Team) -> Seq<MergedData>
    decreases ps.len(),
{
    if ps.len() == 0 {
        Seq::empty()
    } else {
        let rest = merged_of_team(ps.drop_first(), t);
        if ps[0].team_abbreviation@ == t.abbreviation@ && ps[0].season == t.season {
            seq![MergedData { player: ps[0], team: t }] + rest
        } else {
            rest
        }
    }
}

/// The full join: for every team in order, its players in order.
pub open spec fn merged_spec(ps: Seq<Player>, ts: Seq<Team>) -> Seq<MergedData>
    decreases ts.len(),
{
    if ts.len() == 0 {
        Seq::empty()
    } else {
        merged_of_team(ps, ts[0]) + merged_spec(ps, ts.drop_first())
    }
}

/// Joins every player to every team row carrying its team abbreviation
/// and season, ordered by team and then by player. A player with no
/// matching team row is dropped silently.
pub fn merge_data(player_data: &[Player], team_data: &[Team]) -> (r: Vec<MergedData>)
    ensures
        r@ == merged_spec(player_data@, team_data@),
{
    let mut r: Vec<MergedData> = Vec::new();
    let nt = team_data.len();
    proof {
        assert(team_data@.skip(0) =~= team_data@);
        assert(Seq::<MergedData>::empty() + merged_spec(player_data@, team_data@)
            =~= merged_spec(player_data@, team_data@));
    }
    let mut j: usize = 0;
    while j < nt
        invariant
            nt == team_data@.len(),
            j <= nt,
            r@ + merged_spec(player_data@, team_data@.skip(j as int)) == merged_spec(
                player_data@,
                team_data@,
            ),
        decreases nt - j,
    {
        let ghost base = r@;
        let ghost t = team_data@[j as int];
        let np = player_data.len();
        proof {
            assert(player_data@.skip(0) =~= player_data@);
            assert(r@ + merged_of_team(player_data@, t) =~= base + merged_of_team(
                player_data@,
                t,
            ));
        }
        let mut i: usize = 0;
        while i < np
            invariant
                np == player_data@.len(),
                nt == team_data@.len(),
                i <= np,
                j < nt,
                t == team_data@[j as int],
                r@ + merged_of_team(player_data@.skip(i as int), t) == base + merged_of_team(
                    player_data@,
                    t,
                ),
            decreases np - i,
        {
            let ghost before = r@;
            let ghost suffix = player_data@.skip(i as int);
            proof {
                assert(suffix[0] == player_data@[i as int]);
                assert(suffix.drop_first() =~= player_data@.skip(i + 1));
            }
            if player_data[i].team_abbreviation == team_data[j].abbreviation
                && player_data[i].season == team_data[j].season {
                r.push(
                    MergedData {
                        player: player_data[i].duplicate(),
                        team: team_data[j].duplicate(),
                    },
                );
                proof {
                    assert(r@ + merged_of_team(player_data@.skip(i + 1), t) =~= before
                        + merged_of_team(suffix, t));
                }
            }
            i = i + 1;
        }
        proof {
            assert(player_data@.skip(np as int) =~= Seq::<Player>::empty());
            assert(r@ =~= base + merged_of_team(player_data@, t));
            let tsuf = team_data@.skip(j as int);
            assert(tsuf[0] == t);
            assert(tsuf.drop_first() =~= team_data@.skip(j + 1));
            assert(r@ + merged_spec(player_data@, team_data@.skip(j + 1)) =~= base + merged_spec(
                player_data@,
                tsuf,
            ));
        }
        j = j + 1;
    }
    proof {
        assert(team_data@.skip(nt as int) =~= Seq::<Team>::empty());
        assert(r@ =~= merged_spec(player_data@, team_data@));
    }
    r
}

/// Players of the given season, in order.
pub open spec fn players_in_season(ps: Seq<Player>, season: u32) -> Seq<Player>
    decreases ps.len(),
{
    if ps.len() == 0 {
        Seq::empty()
    } else {
        let rest = players_in_season(ps.drop_first(), season);
        if ps[0].season == season {
            seq![ps[0]] + rest
        } else {
            rest
        }
    }
}

/// Teams of the given season, in order.
pub open spec fn teams_in_season(ts: Seq<Team>, season: u32) -> Seq<Team>
    decreases ts.len(),
{
    if ts.len() == 0 {
        Seq::empty()
    } else {
        let rest = teams_in_season(ts.drop_first(), season);
        if ts[0].season == season {
            seq![ts[0]] + rest
        } else {
            rest
        }
    }
}

/// Players carrying the given team abbreviation, in order.
pub open spec fn players_of(ps: Seq<Player>, ab: Seq<char>) -> Seq<Player>
    decreases ps.len(),
{
    if ps.len() == 0 {
        Seq::empty()
    } else {
        let rest = players_of(ps.drop_first(), ab);
        if ps[0].team_abbreviation@ == ab {
            seq![ps[0]] + rest
        } else {
            rest
        }
    }
}

/// Team abbreviations of the players in order of first appearance, skipping
/// those already in `seen`.
pub open spec fn distinct_abbrevs(ps: Seq<Player>, seen: Seq<Seq<char>>) -> Seq<Seq<char>>
    decreases ps.len(),
{
    if ps.len() == 0 {
        Seq::empty()
    } else {
        let ab = ps[0].team_abbreviation@;
        if seen.contains(ab) {
            distinct_abbrevs(ps.drop_first(), seen)
        } else {
            seq![ab] + distinct_abbrevs(ps.drop_first(), seen.push(ab))
        }
    }
}

/// One team's group of season players.
#[derive(Debug)]
pub struct TeamGroup {
    pub abbreviation: String,
    pub players: Vec<Player>,
}

/// Whether some entry of `v` spells exactly `s`.
fn string_vec_contains(v: &Vec<String>, s: &String) -> (r: bool)
    ensures
        r == exists|k: int| 0 <= k < v@.len() && (#[trigger] v@[k])@ == s@,
{
    let n = v.len();
    let mut k: usize = 0;
    while k < n
        invariant
            n == v@.len(),
            k <= n,
            forall|x: int| 0 <= x < k ==> (#[trigger] v@[x])@ != s@,
        decreases n - k,
    {
        if v[k] == *s {
            return true;
        }
        k = k + 1;
    }
    false
}

/// Splits the data of one season: the teams of that season in order, and
/// the season's players grouped by team abbreviation, one group per
/// abbreviation in order of first appearance, each group's players in
/// order.
pub fn filter_data_by_season(player_data: &[Player], team_data: &[Team], season: u32) -> (r: (
    Vec<TeamGroup>,
    Vec<Team>,
))
    ensures
        r.1@ == teams_in_season(team_data@, season),
        ({
            let ps = players_in_season(player_data@, season);
            let abs = distinct_abbrevs(ps, Seq::empty());
            &&& r.0@.len() == abs.len()
            &&& forall|k: int|
                0 <= k < abs.len() ==> (#[trigger] r.0@[k]).abbreviation@ == abs[k]
                    && r.0@[k].players@ == players_of(ps, abs[k])
        }),
{
    // season's teams
    let mut teams: Vec<Team> = Vec::new();
    let nt = team_data.len();
    proof {
        assert(team_data@.skip(0) =~= team_data@);
        assert(Seq::<Team>::empty() + teams_in_season(team_data@, season) =~= teams_in_season(
            team_data@,
            season,
        ));
    }
    let mut j: usize = 0;
    while j < nt
        invariant
            nt == team_data@.len(),
            j <= nt,
            teams@ + teams_in_season(team_data@.skip(j as int), season) == teams_in_season(
                team_data@,
                season,
            ),
        decreases nt - j,
    {
        let ghost before = teams@;
        let ghost suffix = team_data@.skip(j as int);
        proof {
            assert(suffix[0] == team_data@[j as int]);
            assert(suffix.drop_first() =~= team_data@.skip(j + 1));
        }
        if team_data[j].season == season {
            teams.push(team_data[j].duplicate());
            proof {
                assert(teams@ + teams_in_season(team_data@.skip(j + 1), season) =~= before
                    + teams_in_season(suffix, season));
            }
        }
        j = j + 1;
    }
    proof {
        assert(team_data@.skip(nt as int) =~= Seq::<Team>::empty());
        assert(teams@ =~= teams_in_season(team_data@, season));
    }

    // season's players
    let mut ps: Vec<Player> = Vec::new();
    let np = player_data.len();
    proof {
        assert(player_data@.skip(0) =~= player_data@);
        assert(Seq::<Player>::empty() + players_in_season(player_data@, season)
            =~= players_in_season(player_data@, season));
    }
    let mut i: usize = 0;
    while i < np
        invariant
            np == player_data@.len(),
            i <= np,
            ps@ + players_in_season(player_data@.skip(i as int), season) == players_in_season(
                player_data@,
                season,
            ),
        decreases np - i,
    {
        let ghost before = ps@;
        let ghost suffix = player_data@.skip(i as int);
        proof {
            assert(suffix[0] == player_data@[i as int]);
            assert(suffix.drop_first() =~= player_data@.skip(i + 1));
        }
        if player_data[i].season == season {
            ps.push(player_data[i].duplicate());
            proof {
                assert(ps@ + players_in_season(player_data@.skip(i + 1), season) =~= before
                    + players_in_season(suffix, season));
            }
        }
        i = i + 1;
    }
    proof {
        assert(player_data@.skip(np as int) =~= Seq::<Player>::empty());
        assert(ps@ =~= players_in_season(player_data@, season));
    }

    // abbreviations in order of first appearance
    let mut abbrevs: Vec<String> = Vec::new();
    let ghost all_abs = distinct_abbrevs(ps@, Seq::empty());
    let ghost seen0: Seq<Seq<char>> = Seq::empty();
    let ghost mut seen: Seq<Seq<char>> = seen0;
    let npf = ps.len();
    proof {
        assert(ps@.skip(0) =~= ps@);
        assert(seen + distinct_abbrevs(ps@, seen) =~= all_abs);
    }
    let mut k: usize = 0;
    while k < npf
        invariant
            npf == ps@.len(),
            k <= npf,
            seen.len() == abbrevs@.len(),
            forall|x: int| 0 <= x < seen.len() ==> (#[trigger] abbrevs@[x])@ == seen[x],
            seen + distinct_abbrevs(ps@.skip(k as int), seen) == all_abs,
        decreases npf - k,
    {
        let ghost suffix = ps@.skip(k as int);
        let ghost ab = ps@[k as int].team_abbreviation@;
        proof {
            assert(suffix[0] == ps@[k as int]);
            assert(suffix.drop_first() =~= ps@.skip(k + 1));
        }
        if !string_vec_contains(&abbrevs, &ps[k].team_abbreviation) {
            proof {
                assert(!seen.contains(ab)) by {
                    if seen.contains(ab) {
                        let x = choose|x: int| 0 <= x < seen.len() && seen[x] == ab;
                        assert(abbrevs@[x]@ == ab);
                    }
                }
            }
            abbrevs.push(ps[k].team_abbreviation.clone());
            proof {
                let before = seen;
                seen = seen.push(ab);
                assert(forall|x: int|
                    0 <= x < seen.len() ==> (#[trigger] abbrevs@[x])@ == seen[x]);
                assert(before + (seq![ab] + distinct_abbrevs(ps@.skip(k + 1), seen)) =~= seen
                    + distinct_abbrevs(ps@.skip(k + 1), seen));
            }
        } else {
            proof {
                assert(seen.contains(ab)) by {
                    let x = choose|x: int|
                        0 <= x < abbrevs@.len() && (#[trigger] abbrevs@[x])@ == ab;
                    assert(seen[x] == ab);
                }
            }
        }
        k = k + 1;
    }
    proof {
        assert(ps@.skip(npf as int) =~= Seq::<Player>::empty());
        assert(distinct_abbrevs(ps@.skip(npf as int), seen) =~= Seq::<Seq<char>>::empty());
        assert(seen =~= all_abs);
    }

    // one group per abbreviation
    let mut groups: Vec<TeamGroup> = Vec::new();
    let na = abbrevs.len();
    let mut a: usize = 0;
    while a < na
        invariant
            na == abbrevs@.len(),
            npf == ps@.len(),
            a <= na,
            groups@.len() == a,
            forall|x: int| 0 <= x < abbrevs@.len() ==> (#[trigger] abbrevs@[x])@ == all_abs[x],
            abbrevs@.len() == all_abs.len(),
            forall|x: int|
                0 <= x < a ==> (#[trigger] groups@[x]).abbreviation@ == all_abs[x]
                    && groups@[x].players@ == players_of(ps@, all_abs[x]),
        decreases na - a,
    {
        let ghost ab = abbrevs@[a as int]@;
        let mut members: Vec<Player> = Vec::new();
        proof {
            assert(ps@.skip(0) =~= ps@);
            assert(Seq::<Player>::empty() + players_of(ps@, ab) =~= players_of(ps@, ab));
        }
        let mut k2: usize = 0;
        while k2 < npf
            invariant
                npf == ps@.len(),
                a < na,
                na == abbrevs@.len(),
                k2 <= npf,
                ab == abbrevs@[a as int]@,
                members@ + players_of(ps@.skip(k2 as int), ab) == players_of(ps@, ab),
            decreases npf - k2,
        {
            let ghost before = members@;
            let ghost suffix = ps@.skip(k2 as int);
            proof {
                assert(suffix[0] == ps@[k2 as int]);
                assert(suffix.drop_first() =~= ps@.skip(k2 + 1));
            }
            if ps[k2].team_abbreviation == abbrevs[a] {
                members.push(ps[k2].duplicate());
                proof {
                    assert(members@ + players_of(ps@.skip(k2 + 1), ab) =~= before + players_of(
                        suffix,
                        ab,
                    ));
                }
            }
            k2 = k2 + 1;
        }
        proof {
            assert(ps@.skip(npf as int) =~= Seq::<Player>::empty());
            assert(members@ =~= players_of(ps@, ab));
        }
        groups.push(TeamGroup { abbreviation: abbrevs[a].clone(), players: members });
        a = a + 1;
    }
    (groups, teams)
}

} // verus!