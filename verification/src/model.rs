//! A compact match-ledger model: bare team and match records and the
//! simulated score entries appended for them.

use crate::models::matchup::max_zero;
use crate::shared::rng::random_in_range;
use vstd::prelude::*;

verus! {

/// A bare team record: identifier, name and skill rating.
#[derive(Debug)]
pub struct Team {
    pub id: i32,
    pub name: String,
    pub skill: i32,
}

/// A single scheduled match of a season.
#[derive(Clone, Copy, Debug)]
pub struct Match {
    pub id: i32,
    pub wk_no: u16,
    pub season_id: i32,
    pub home_team_id: i32,
    pub away_team_id: i32,
}

/// An ordered fixture list.
#[derive(Debug)]
pub struct Schedule {
    pub matches: Vec<Match>,
}

/// The append-only list of simulated results.
#[derive(Debug)]
pub struct Ledger {
    pub entries: Vec<LedgerEntry>,
}

/// One simulated result: the match it belongs to and both scores.
#[derive(Clone, Copy, Debug)]
pub struct LedgerEntry {
    pub match_id: i32,
    pub home_score: i32,
    pub away_score: i32,
}

/// The team at index `i` is the first of `teams` with identifier `id`.
pub open spec fn first_with_id(teams: Seq<Team>, id: i32, i: int) -> bool {
    &&& 0 <= i < teams.len()
    &&& teams[i].id == id
    &&& (forall|j: int| 0 <= j < i ==> (#[trigger] teams[j]).id != id)
}

impl LedgerEntry {
    /// Simulate `for_match`: each side scores `max(0, skill + offset)` for
    /// an offset drawn uniformly from -2..=4, using the first team of
    /// `teams` carrying each side's identifier. Both identifiers must
    /// resolve, and skills must sit in their 0..=100 domain.
    pub fn simulate(teams: &Vec<Team>, for_match: &Match) -> (r: LedgerEntry)
        requires
            exists|i: int|
                0 <= i < teams@.len() && (#[trigger] teams@[i]).id == for_match.home_team_id,
            exists|i: int|
                0 <= i < teams@.len() && (#[trigger] teams@[i]).id == for_match.away_team_id,
            forall|i: int| 0 <= i < teams@.len() ==> 0 <= (#[trigger] teams@[i]).skill <= 100,
        ensures
            r.match_id == for_match.id,
            exists|i: int|
                #![trigger teams@[i]]
                first_with_id(teams@, for_match.home_team_id, i) && max_zero(
                    teams@[i].skill as int - 2,
                ) <= r.home_score <= teams@[i].skill as int + 4,
            exists|i: int|
                #![trigger teams@[i]]
                first_with_id(teams@, for_match.away_team_id, i) && max_zero(
                    teams@[i].skill as int - 2,
                ) <= r.away_score <= teams@[i].skill as int + 4,
    {
        let home_skill: i32 = Self::find_skill(teams, for_match.home_team_id);
        let away_skill: i32 = Self::find_skill(teams, for_match.away_team_id);
        let home_raw: i32 = home_skill + random_in_range(-2, 5);
        let away_raw: i32 = away_skill + random_in_range(-2, 5);
        LedgerEntry {
            match_id: for_match.id,
            home_score: if home_raw < 0 {
                0
            } else {
                home_raw
            },
            away_score: if away_raw < 0 {
                0
            } else {
                away_raw
            },
        }
    }

    /// The skill of the first team of `teams` carrying `id`.
    fn find_skill(teams: &Vec<Team>, id: i32) -> (r: i32)
        requires
            exists|i: int| 0 <= i < teams@.len() && (#[trigger] teams@[i]).id == id,
            forall|i: int| 0 <= i < teams@.len() ==> 0 <= (#[trigger] teams@[i]).skill <= 100,
        ensures
            0 <= r <= 100,
            exists|i: int|
                #![trigger teams@[i]]
                first_with_id(teams@, id, i) && r == teams@[i].skill,
    {
        let mut i: usize = 0;
        while i < teams.len()
            invariant
                i <= teams@.len(),
                exists|k: int| 0 <= k < teams@.len() && (#[trigger] teams@[k]).id == id,
                forall|k: int| 0 <= k < teams@.len() ==> 0 <= (#[trigger] teams@[k]).skill <= 100,
                forall|j: int| 0 <= j < i ==> (#[trigger] teams@[j]).id != id,
            decreases teams@.len() - i,
        {
            if teams[i].id == id {
                return teams[i].skill;
            }
            i = i + 1;
        }
        proof {
            assert(false);
        }
        0
    }
}

} // verus!
