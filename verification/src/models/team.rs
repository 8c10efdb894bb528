//! Teams and the aggregated team view handed to callers.

use crate::models::league::League;
use crate::models::matchup::{completed, involves, Matchup};
use crate::models::standings::{
    lemma_insert_by_week_at, sort_by_week, streak_of, streak_spec, team_history,
};
use crate::models::tier::Tier;
use crate::store::{lemma_filter_push, year_ledger_of, year_ledger_prefix, Store};
use crate::Error;
use vstd::prelude::*;

verus! {

/// A team: member of exactly one tier, with a skill rating in 0..=100.
#[derive(Debug)]
pub struct Team {
    pub id: i32,
    pub name: String,
    pub skill: i32,
    pub tier_id: i32,
}

impl Clone for Team {
    fn clone(&self) -> (r: Self)
        ensures
            r == *self,
    {
        Team { id: self.id, name: self.name.clone(), skill: self.skill, tier_id: self.tier_id }
    }
}

impl Team {
    /// Store a new team under the next free identifier and return it.
    /// The `league_id` is carried by the team's tier, not stored here.
    pub fn create(store: &mut Store, name: String, skill: i32, tier_id: i32, _league_id: i32) -> (t:
        Team)
        requires
            old(store).wf(),
            old(store).teams@.len() < crate::store::MAX_ENTITIES,
            0 <= skill <= 100,
        ensures
            final(store).wf(),
            t == (Team { id: (old(store).teams@.len() + 1) as i32, name, skill, tier_id }),
            final(store).teams@ == old(store).teams@.push(t),
            final(store).leagues@ == old(store).leagues@,
            final(store).tiers@ == old(store).tiers@,
            final(store).sch() == old(store).sch(),
            final(store).game == old(store).game,
    {
        let id: i32 = (store.teams.len() + 1) as i32;
        let t = Team { id, name, skill, tier_id };
        let r = t.clone();
        store.teams.push(t);
        r
    }

    /// All teams, in store order.
    pub fn get_all(store: &Store) -> (r: Vec<Team>)
        requires
            store.wf(),
        ensures
            r@ == store.teams@,
    {
        let mut out: Vec<Team> = Vec::new();
        let mut i: usize = 0;
        while i < store.teams.len()
            invariant
                i <= store.teams@.len(),
                out@ == store.teams@.subrange(0, i as int),
            decreases store.teams@.len() - i,
        {
            out.push(store.teams[i].clone());
            proof {
                assert(out@ =~= store.teams@.subrange(0, i + 1));
            }
            i = i + 1;
        }
        proof {
            assert(out@ =~= store.teams@);
        }
        out
    }

    /// The roster of the division given by a league and one of its tiers:
    /// the teams of tier `tier_id`, provided that tier belongs to league
    /// `league_id`; otherwise no team at all.
    pub fn get_by_division(store: &Store, league_id: i32, tier_id: i32) -> (r: Vec<Team>)
        requires
            store.wf(),
        ensures
            r@ == division_roster(*store, league_id, tier_id),
    {
        if !(1 <= tier_id && tier_id as usize <= store.tiers.len()
            && store.tiers[(tier_id - 1) as usize].league_id == league_id) {
            let out: Vec<Team> = Vec::new();
            return out;
        }
        let mut out: Vec<Team> = Vec::new();
        let mut i: usize = 0;
        while i < store.teams.len()
            invariant
                i <= store.teams@.len(),
                out@ == store.teams@.subrange(0, i as int).filter(
                    |t: Team| t.tier_id == tier_id,
                ),
            decreases store.teams@.len() - i,
        {
            proof {
                assert(store.teams@.subrange(0, i + 1) =~= store.teams@.subrange(0, i as int).push(
                    store.teams@[i as int],
                ));
                lemma_filter_push(
                    store.teams@.subrange(0, i as int),
                    store.teams@[i as int],
                    |t: Team| t.tier_id == tier_id,
                );
            }
            if store.teams[i].tier_id == tier_id {
                out.push(store.teams[i].clone());
            }
            i = i + 1;
        }
        proof {
            assert(store.teams@.subrange(0, store.teams@.len() as int) =~= store.teams@);
        }
        out
    }

    /// The team's current winning streak in season `year`: its completed
    /// matchups of the year, ordered by week (ties keeping store order),
    /// counted backwards from the most recent while they are wins. A draw
    /// or loss ends the run at once.
    pub fn get_streak(&self, store: &Store, year: &i32) -> (r: i32)
        requires
            store.wf(),
        ensures
            r as int == streak_spec(store.sch(), *year as int, self.id),
    {
        let t: i32 = self.id;
        let ghost pred = |m: Matchup| involves(m, t) && completed(m);

        // Collect the team's completed matchups of the year, in store order.
        let mut hist: Vec<Matchup> = Vec::new();
        let mut si: usize = 0;
        while si < store.schedules.len()
            invariant
                store.wf(),
                t == self.id,
                si <= store.schedules@.len(),
                hist@ == year_ledger_prefix(store.sch(), *year as int, si as int).filter(
                    |m: Matchup| involves(m, t) && completed(m),
                ),
            decreases store.schedules@.len() - si,
        {
            if store.schedules[si].year == *year {
                let mut mi: usize = 0;
                while mi < store.schedules[si].matchups.len()
                    invariant
                        store.wf(),
                        t == self.id,
                        si < store.schedules@.len(),
                        store.sch()[si as int].year == *year as int,
                        mi <= store.sch()[si as int].matchups.len(),
                        hist@ == (year_ledger_prefix(store.sch(), *year as int, si as int)
                            + store.sch()[si as int].matchups.subrange(0, mi as int)).filter(
                            |m: Matchup| involves(m, t) && completed(m),
                        ),
                    decreases store.sch()[si as int].matchups.len() - mi,
                {
                    let m: Matchup = store.schedules[si].matchups[mi];
                    proof {
                        let base = year_ledger_prefix(store.sch(), *year as int, si as int);
                        let part = store.sch()[si as int].matchups.subrange(0, mi as int);
                        assert(base + store.sch()[si as int].matchups.subrange(0, mi + 1) =~= (base
                            + part).push(m));
                        crate::store::lemma_filter_push(
                            base + part,
                            m,
                            |mm: Matchup| involves(mm, t) && completed(mm),
                        );
                    }
                    if (m.home_team_id == t || m.away_team_id == t) && m.home_team_score.is_some()
                        && m.away_team_score.is_some() {
                        hist.push(m);
                    }
                    mi = mi + 1;
                }
                proof {
                    assert(year_ledger_prefix(store.sch(), *year as int, si + 1)
                        =~= year_ledger_prefix(store.sch(), *year as int, si as int)
                        + store.sch()[si as int].matchups.subrange(
                        0,
                        store.sch()[si as int].matchups.len() as int,
                    ));
                }
            } else {
                proof {
                    assert(year_ledger_prefix(store.sch(), *year as int, si + 1)
                        =~= year_ledger_prefix(store.sch(), *year as int, si as int)
                        + Seq::<Matchup>::empty());
                    assert(year_ledger_prefix(store.sch(), *year as int, si as int)
                        + Seq::<Matchup>::empty() =~= year_ledger_prefix(
                        store.sch(),
                        *year as int,
                        si as int,
                    ));
                }
            }
            si = si + 1;
        }
        proof {
            crate::store::lemma_year_ledger_len(
                store.sch(),
                *year as int,
                store.sch().len() as int,
            );
            year_ledger_of(store.sch(), *year as int).lemma_filter_len(pred);
            assert(hist@ == team_history(store.sch(), *year as int, t));
        }

        // Sort by week, stably.
        let mut sorted: Vec<Matchup> = Vec::new();
        let mut k: usize = 0;
        while k < hist.len()
            invariant
                k <= hist@.len(),
                sorted@.len() == k,
                sorted@ == sort_by_week(hist@.subrange(0, k as int)),
            decreases hist@.len() - k,
        {
            let m: Matchup = hist[k];
            let mut j: usize = sorted.len();
            while j > 0 && sorted[j - 1].wk_no > m.wk_no
                invariant
                    j <= sorted@.len(),
                    forall|idx: int|
                        j <= idx < sorted@.len() ==> (#[trigger] sorted@[idx]).wk_no > m.wk_no,
                decreases j,
            {
                j = j - 1;
            }
            proof {
                lemma_insert_by_week_at(sorted@, m, j as int);
                assert(hist@.subrange(0, k + 1).drop_last() =~= hist@.subrange(0, k as int));
                assert(hist@.subrange(0, k + 1).last() == hist@[k as int]);
            }
            sorted.insert(j, m);
            k = k + 1;
        }
        proof {
            assert(hist@.subrange(0, hist@.len() as int) =~= hist@);
        }

        // Count the trailing run of wins.
        let mut st: i32 = 0;
        let mut j: usize = sorted.len();
        proof {
            assert(sorted@.subrange(0, j as int) =~= sorted@);
        }
        loop
            invariant_except_break
                t == self.id,
                j <= sorted@.len(),
                sorted@.len() <= 0x4000_0000,
                st as int == sorted@.len() - j,
                sorted@ == sort_by_week(team_history(store.sch(), *year as int, t)),
                streak_of(sorted@, t) == st + streak_of(sorted@.subrange(0, j as int), t),
            ensures
                st as int == streak_spec(store.sch(), *year as int, self.id),
            decreases j,
        {
            if j == 0 {
                proof {
                    assert(sorted@.subrange(0, 0) =~= Seq::<Matchup>::empty());
                }
                break ;
            }
            let m: Matchup = sorted[j - 1];
            proof {
                assert(sorted@.subrange(0, j as int).last() == m);
                assert(sorted@.subrange(0, j as int).drop_last() =~= sorted@.subrange(0, j - 1));
            }
            let win: bool = match (m.home_team_score, m.away_team_score) {
                (Some(hs), Some(aws)) => (m.home_team_id == t && hs > aws) || (m.away_team_id == t
                    && aws > hs),
                _ => false,
            };
            if win {
                st = st + 1;
                j = j - 1;
            } else {
                proof {
                    assert(streak_of(sorted@.subrange(0, j as int), t) == 0);
                }
                break ;
            }
        }
        st
    }

    /// Look a team up by identifier.
    pub fn get(store: &Store, id: &i32) -> (r: Result<Team, Error>)
        requires
            store.wf(),
        ensures
            match r {
                Ok(t) => 1 <= *id <= store.teams@.len() && t == store.teams@[*id - 1],
                Err(e) => e == Error::NotFound && !(1 <= *id <= store.teams@.len()),
            },
    {
        if 1 <= *id && *id as usize <= store.teams.len() {
            Ok(store.teams[(*id - 1) as usize].clone())
        } else {
            Err(Error::NotFound)
        }
    }
}

/// The teams of tier `tier_id` when that tier exists and belongs to league
/// `league_id`; otherwise empty.
pub open spec fn division_roster_of(
    tiers: Seq<Tier>,
    teams: Seq<Team>,
    league_id: i32,
    tier_id: i32,
) -> Seq<Team> {
    if 1 <= tier_id <= tiers.len() && tiers[tier_id - 1].league_id == league_id {
        teams.filter(|t: Team| t.tier_id == tier_id)
    } else {
        Seq::empty()
    }
}

/// `division_roster_of`, read off a whole store.
pub open spec fn division_roster(store: Store, league_id: i32, tier_id: i32) -> Seq<Team> {
    division_roster_of(store.tiers@, store.teams@, league_id, tier_id)
}

/// A team together with its tier and league, as handed outward.
#[derive(Debug)]
pub struct TeamInfo {
    pub id: i32,
    pub name: String,
    pub skill: i32,
    pub tier: Tier,
    pub league: League,
}

impl TeamInfo {
    /// Resolve one team with its tier and league.
    pub fn get(store: &Store, team_id: i32) -> (r: Result<TeamInfo, Error>)
        requires
            store.wf(),
        ensures
            match r {
                Ok(info) => {
                    &&& 1 <= team_id <= store.teams@.len()
                    &&& {
                        let team = store.teams@[team_id - 1];
                        &&& 1 <= team.tier_id <= store.tiers@.len()
                        &&& {
                            let tier = store.tiers@[team.tier_id - 1];
                            &&& 1 <= tier.league_id <= store.leagues@.len()
                            &&& info.id == team.id
                            &&& info.name@ == team.name@
                            &&& info.skill == team.skill
                            &&& info.tier == tier
                            &&& info.league == store.leagues@[tier.league_id - 1]
                        }
                    }
                },
                Err(e) => {
                    &&& e == Error::NotFound
                    &&& !({
                        &&& 1 <= team_id <= store.teams@.len()
                        &&& 1 <= store.teams@[team_id - 1].tier_id <= store.tiers@.len()
                        &&& 1 <= store.tiers@[store.teams@[team_id - 1].tier_id
                            - 1].league_id <= store.leagues@.len()
                    })
                },
            },
    {
        let team = Team::get(store, &team_id)?;
        let tier = Tier::get(store, &team.tier_id)?;
        let league = League::get(store, &tier.league_id)?;
        let Team { id, name, skill, tier_id: _ } = team;
        Ok(TeamInfo { id, name, skill, tier, league })
    }

    /// Resolve every team; fails if any team's tier or league is missing.
    pub fn get_all(store: &Store) -> (r: Result<Vec<TeamInfo>, Error>)
        requires
            store.wf(),
        ensures
            match r {
                Ok(infos) => {
                    &&& infos@.len() == store.teams@.len()
                    &&& forall|i: int|
                        0 <= i < infos@.len() ==> team_info_matches(
                            *store,
                            i,
                            #[trigger] infos@[i],
                        )
                },
                Err(e) => {
                    &&& e == Error::NotFound
                    &&& exists|i: int|
                        0 <= i < store.teams@.len() && !({
                            &&& 1 <= (#[trigger] store.teams@[i]).tier_id <= store.tiers@.len()
                            &&& 1 <= store.tiers@[store.teams@[i].tier_id
                                - 1].league_id <= store.leagues@.len()
                        })
                },
            },
    {
        let mut out: Vec<TeamInfo> = Vec::new();
        let mut i: usize = 0;
        while i < store.teams.len()
            invariant
                store.wf(),
                i <= store.teams@.len(),
                out@.len() == i,
                forall|j: int| 0 <= j < i ==> team_info_matches(*store, j, #[trigger] out@[j]),
            decreases store.teams@.len() - i,
        {
            let team_id: i32 = store.teams[i].id;
            proof {
                assert(store.teams@[i as int].id == i + 1);
            }
            match TeamInfo::get(store, team_id) {
                Ok(info) => {
                    out.push(info);
                    proof {
                        assert(store.teams@[team_id - 1] == store.teams@[i as int]);
                        assert(team_info_matches(*store, i as int, info));
                        assert(out@[i as int] == info);
                    }
                }
                Err(e) => {
                    return Err(e);
                }
            }
            i = i + 1;
        }
        Ok(out)
    }
}

/// `info` is the outward view of the team at index `j`: the team's own
/// fields together with its resolved tier and that tier's league.
pub open spec fn team_info_matches(store: Store, j: int, info: TeamInfo) -> bool {
    let team = store.teams@[j];
    &&& 1 <= team.tier_id <= store.tiers@.len()
    &&& info.id == team.id
    &&& info.name@ == team.name@
    &&& info.skill == team.skill
    &&& info.tier == store.tiers@[team.tier_id - 1]
    &&& 1 <= store.tiers@[team.tier_id - 1].league_id <= store.leagues@.len()
    &&& info.league == store.leagues@[store.tiers@[team.tier_id - 1].league_id - 1]
}

} // verus!
