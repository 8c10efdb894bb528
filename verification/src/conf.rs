//! The flat configuration records consumed once at season bootstrap:
//! league, tier and team definitions.

use vstd::prelude::*;
use vstd::string::StringExecFns;

verus! {

/// The team roster configuration: one item per team.
pub struct TeamConfig {
    pub teams: Vec<TeamConfigItem>,
}

/// One configured team: display name, skill, owning tier and league, each
/// by display name.
pub struct TeamConfigItem {
    pub name: String,
    pub skill: i32,
    pub tier: String,
    pub league: String,
}

impl Clone for TeamConfigItem {
    fn clone(&self) -> (r: Self)
        ensures
            r.name@ == self.name@,
            r.skill == self.skill,
            r.tier@ == self.tier@,
            r.league@ == self.league@,
    {
        TeamConfigItem {
            name: self.name.clone(),
            skill: self.skill,
            tier: self.tier.clone(),
            league: self.league.clone(),
        }
    }
}

/// The league structure configuration: leagues and their tiers.
pub struct LeagueConfig {
    pub leagues: Vec<LeagueConfigItem>,
    pub tiers: Vec<TierConfigItem>,
}

/// One configured league: short code and display name.
pub struct LeagueConfigItem {
    pub abbr: String,
    pub name: String,
}

impl LeagueConfigItem {
    /// A league item from its short code and display name.
    pub fn new(abbr: &str, name: &str) -> (r: Self)
        ensures
            r.abbr@ == abbr@,
            r.name@ == name@,
    {
        LeagueConfigItem { abbr: String::from_str(abbr), name: String::from_str(name) }
    }
}

/// One configured tier: display name and owning league's display name.
pub struct TierConfigItem {
    pub name: String,
    pub league: String,
}

/// The display name of the default league at index `i`.
pub open spec fn default_league_name(i: int) -> Seq<char> {
    if i == 0 {
        "Northeast"@
    } else if i == 1 {
        "Atlantic"@
    } else if i == 2 {
        "Southeast"@
    } else if i == 3 {
        "Great Lakes"@
    } else if i == 4 {
        "South"@
    } else if i == 5 {
        "Southwest"@
    } else if i == 6 {
        "Northwest"@
    } else {
        "Central"@
    }
}

/// The short code of the default league at index `i`.
pub open spec fn default_league_abbr(i: int) -> Seq<char> {
    if i == 0 {
        "NE"@
    } else if i == 1 {
        "AT"@
    } else if i == 2 {
        "SE"@
    } else if i == 3 {
        "GL"@
    } else if i == 4 {
        "SO"@
    } else if i == 5 {
        "SW"@
    } else if i == 6 {
        "NW"@
    } else {
        "CT"@
    }
}

/// The display name of a tier of the given rank, 1 through 4.
pub open spec fn default_tier_name(rank: int) -> Seq<char> {
    if rank == 1 {
        "Tier 1"@
    } else if rank == 2 {
        "Tier 2"@
    } else if rank == 3 {
        "Tier 3"@
    } else {
        "Tier 4"@
    }
}

impl Default for LeagueConfig {
    /// The stock league structure: eight regional leagues, each with four
    /// tiers ranked 1 through 4.
    fn default() -> (r: Self)
        ensures
            r.leagues@.len() == 8,
            forall|i: int|
                0 <= i < 8 ==> (#[trigger] r.leagues@[i]).abbr@ == default_league_abbr(i)
                    && r.leagues@[i].name@ == default_league_name(i),
            r.tiers@.len() == 32,
            forall|i: int|
                0 <= i < 32 ==> (#[trigger] r.tiers@[i]).name@ == default_tier_name(i % 4 + 1)
                    && r.tiers@[i].league@ == default_league_name(i / 4),
    {
        let mut leagues: Vec<LeagueConfigItem> = Vec::new();
        let mut li: usize = 0;
        while li < 8
            invariant
                li <= 8,
                leagues@.len() == li,
                forall|i: int|
                    0 <= i < li ==> (#[trigger] leagues@[i]).abbr@ == default_league_abbr(i)
                        && leagues@[i].name@ == default_league_name(i),
            decreases 8 - li,
        {
            let item = match li {
                0 => LeagueConfigItem::new("NE", "Northeast"),
                1 => LeagueConfigItem::new("AT", "Atlantic"),
                2 => LeagueConfigItem::new("SE", "Southeast"),
                3 => LeagueConfigItem::new("GL", "Great Lakes"),
                4 => LeagueConfigItem::new("SO", "South"),
                5 => LeagueConfigItem::new("SW", "Southwest"),
                6 => LeagueConfigItem::new("NW", "Northwest"),
                _ => LeagueConfigItem::new("CT", "Central"),
            };
            leagues.push(item);
            li = li + 1;
        }
        let mut tiers: Vec<TierConfigItem> = Vec::new();
        let mut ti: usize = 0;
        while ti < 32
            invariant
                ti <= 32,
                leagues@.len() == 8,
                forall|i: int|
                    0 <= i < 8 ==> (#[trigger] leagues@[i]).abbr@ == default_league_abbr(i)
                        && leagues@[i].name@ == default_league_name(i),
                tiers@.len() == ti,
                forall|i: int|
                    0 <= i < ti ==> (#[trigger] tiers@[i]).name@ == default_tier_name(i % 4 + 1)
                        && tiers@[i].league@ == default_league_name(i / 4),
            decreases 32 - ti,
        {
            let rank: usize = ti % 4 + 1;
            let name: String = match rank {
                1 => String::from_str("Tier 1"),
                2 => String::from_str("Tier 2"),
                3 => String::from_str("Tier 3"),
                _ => String::from_str("Tier 4"),
            };
            let league: String = leagues[ti / 4].name.clone();
            tiers.push(TierConfigItem { name, league });
            ti = ti + 1;
        }
        LeagueConfig { leagues, tiers }
    }
}

} // verus!
