//! Matchups: single fixtures with their optional, set-exactly-once scores.

use crate::models::schedule::ScheduleModel;
use crate::models::team::Team;
use crate::shared::rng::random_in_range;
use crate::store::{
    fixture_slot_of_id, id_located, ledger_of, ledger_prefix, lemma_filter_push,
    lemma_schedules_wf_set_matchups, matchup_in, schedule_slot_of_id, Store, MAX_FIXTURES,
};
use crate::Error;
use vstd::prelude::*;

verus! {

/// One fixture of a schedule. Scores start unset ("not yet played") and are
/// either both set or both unset.
#[derive(Clone, Copy, Debug)]
pub struct Matchup {
    pub id: i32,
    pub wk_no: i32,
    pub home_team_id: i32,
    pub away_team_id: i32,
    pub home_team_score: Option<i32>,
    pub away_team_score: Option<i32>,
}

/// Both scores set, or both unset (invariant I3 of the data model).
pub open spec fn scores_consistent(m: Matchup) -> bool {
    m.home_team_score is Some <==> m.away_team_score is Some
}

/// The matchup has been played: both scores are set.
pub open spec fn completed(m: Matchup) -> bool {
    m.home_team_score is Some && m.away_team_score is Some
}

/// The matchup involves `team` on either side.
pub open spec fn involves(m: Matchup, team: i32) -> bool {
    m.home_team_id == team || m.away_team_id == team
}

/// `s1` is `s0` with the scores of the matchup that `id` decodes to
/// replaced by `home_score` and `away_score`; nothing else moved.
pub open spec fn rescored(
    s0: Seq<ScheduleModel>,
    s1: Seq<ScheduleModel>,
    id: int,
    home_score: i32,
    away_score: i32,
) -> bool {
    let si = schedule_slot_of_id(id);
    let mi = fixture_slot_of_id(id);
    &&& id_located(s0, id)
    &&& s1 == s0.update(
        si,
        ScheduleModel {
            matchups: s0[si].matchups.update(
                mi,
                Matchup {
                    home_team_score: Some(home_score),
                    away_team_score: Some(away_score),
                    ..s0[si].matchups[mi]
                },
            ),
            ..s0[si]
        },
    )
}

impl Matchup {
    /// Append a fresh, unscored matchup to the schedule `schedule_id`
    /// resolves to, under the identifier encoding its place. The season is
    /// carried by the schedule itself, so `_season_id` is accepted and
    /// ignored.
    pub fn create(
        store: &mut Store,
        home_team_id: i32,
        away_team_id: i32,
        wk_no: i32,
        _season_id: i32,
        schedule_id: i32,
    ) -> (r: Result<Matchup, Error>)
        requires
            old(store).wf(),
            1 <= wk_no <= 0x4000_0000,
            1 <= schedule_id <= old(store).sch().len() ==> old(store).sch()[schedule_id
                - 1].matchups.len() < MAX_FIXTURES,
        ensures
            final(store).wf(),
            final(store).leagues@ == old(store).leagues@,
            final(store).tiers@ == old(store).tiers@,
            final(store).teams@ == old(store).teams@,
            final(store).game == old(store).game,
            match r {
                Ok(m) => {
                    let si = schedule_id - 1;
                    &&& 1 <= schedule_id <= old(store).sch().len()
                    &&& m == (Matchup {
                        id: (si * (MAX_FIXTURES as int) + old(store).sch()[si].matchups.len()
                            + 1) as i32,
                        wk_no,
                        home_team_id,
                        away_team_id,
                        home_team_score: None,
                        away_team_score: None,
                    })
                    &&& final(store).sch() == old(store).sch().update(
                        si,
                        ScheduleModel {
                            matchups: old(store).sch()[si].matchups.push(m),
                            ..old(store).sch()[si]
                        },
                    )
                },
                Err(e) => {
                    &&& e == Error::NotFound
                    &&& !(1 <= schedule_id <= old(store).sch().len())
                    &&& final(store).sch() == old(store).sch()
                },
            },
    {
        if schedule_id < 1 || schedule_id as usize > store.schedules.len() {
            return Err(Error::NotFound);
        }
        let si: usize = (schedule_id - 1) as usize;
        let mi: usize = store.schedules[si].matchups.len();
        let id: i32 = (si * MAX_FIXTURES + mi + 1) as i32;
        let m = Matchup {
            id,
            wk_no,
            home_team_id,
            away_team_id,
            home_team_score: None,
            away_team_score: None,
        };
        store.push_matchup(si, m);
        proof {
            let s0 = old(store).sch();
            let m2 = s0[si as int].matchups.push(m);
            assert forall|b: int|
                0 <= b < m2.len() implies (#[trigger] m2[b]).id == si * (MAX_FIXTURES as int) + b
                + 1 && 1 <= m2[b].wk_no <= 0x4000_0000 && scores_consistent(m2[b]) by {
                if b < s0[si as int].matchups.len() {
                    assert(matchup_in(s0, si as int, b) == m2[b]);
                }
            }
            lemma_schedules_wf_set_matchups(s0, si as int, m2);
        }
        Ok(m)
    }

    /// Every matchup of the ledger that involves `team_id`, in store order.
    pub fn get_with_teamid(store: &Store, team_id: &i32) -> (r: Vec<Matchup>)
        requires
            store.wf(),
        ensures
            r@ == ledger_of(store.sch()).filter(|m: Matchup| involves(m, *team_id)),
    {
        let mut out: Vec<Matchup> = Vec::new();
        let mut si: usize = 0;
        while si < store.schedules.len()
            invariant
                store.wf(),
                si <= store.schedules@.len(),
                out@ == ledger_prefix(store.sch(), si as int).filter(
                    |m: Matchup| involves(m, *team_id),
                ),
            decreases store.schedules@.len() - si,
        {
            let mut mi: usize = 0;
            while mi < store.schedules[si].matchups.len()
                invariant
                    store.wf(),
                    si < store.schedules@.len(),
                    mi <= store.sch()[si as int].matchups.len(),
                    out@ == (ledger_prefix(store.sch(), si as int) + store.sch()[si as int].matchups.subrange(
                        0,
                        mi as int,
                    )).filter(|m: Matchup| involves(m, *team_id)),
                decreases store.sch()[si as int].matchups.len() - mi,
            {
                let m: Matchup = store.schedules[si].matchups[mi];
                proof {
                    let base = ledger_prefix(store.sch(), si as int);
                    let part = store.sch()[si as int].matchups.subrange(0, mi as int);
                    assert(base + store.sch()[si as int].matchups.subrange(0, mi + 1) =~= (base
                        + part).push(m));
                    lemma_filter_push(base + part, m, |mm: Matchup| involves(mm, *team_id));
                }
                if m.home_team_id == *team_id || m.away_team_id == *team_id {
                    out.push(m);
                }
                mi = mi + 1;
            }
            proof {
                assert(ledger_prefix(store.sch(), si + 1) =~= ledger_prefix(store.sch(), si as int)
                    + store.sch()[si as int].matchups.subrange(
                    0,
                    store.sch()[si as int].matchups.len() as int,
                ));
            }
            si = si + 1;
        }
        out
    }

    /// Overwrite the scores of the matchup `self.id` resolves to with the
    /// two given non-negative scores. This is the deterministic core of
    /// score-keeping; `compute_scores` feeds it from the randomness source.
    pub fn set_scores(&self, store: &mut Store, home_score: i32, away_score: i32) -> (r: Result<
        (),
        Error,
    >)
        requires
            old(store).wf(),
            home_score >= 0,
            away_score >= 0,
        ensures
            final(store).wf(),
            final(store).leagues@ == old(store).leagues@,
            final(store).tiers@ == old(store).tiers@,
            final(store).teams@ == old(store).teams@,
            final(store).game == old(store).game,
            match r {
                Ok(()) => rescored(
                    old(store).sch(),
                    final(store).sch(),
                    self.id as int,
                    home_score,
                    away_score,
                ),
                Err(e) => {
                    &&& e == Error::NotFound
                    &&& !id_located(old(store).sch(), self.id as int)
                    &&& final(store).sch() == old(store).sch()
                },
            },
    {
        if self.id < 1 {
            return Err(Error::NotFound);
        }
        let idx: usize = (self.id - 1) as usize;
        let si: usize = idx / MAX_FIXTURES;
        let mi: usize = idx % MAX_FIXTURES;
        if si >= store.schedules.len() {
            return Err(Error::NotFound);
        }
        if mi >= store.schedules[si].matchups.len() {
            return Err(Error::NotFound);
        }
        let m0: Matchup = store.schedules[si].matchups[mi];
        let m1 = Matchup {
            home_team_score: Some(home_score),
            away_team_score: Some(away_score),
            ..m0
        };
        proof {
            assert(matchup_in(old(store).sch(), si as int, mi as int) == m0);
        }
        store.set_matchup(si, mi, m1);
        proof {
            let s0 = old(store).sch();
            let m2 = s0[si as int].matchups.update(mi as int, m1);
            assert forall|b: int|
                0 <= b < m2.len() implies (#[trigger] m2[b]).id == si * (MAX_FIXTURES as int) + b
                + 1 && 1 <= m2[b].wk_no <= 0x4000_0000 && scores_consistent(m2[b]) by {
                assert(matchup_in(s0, si as int, b) == s0[si as int].matchups[b]);
                if b != mi {
                    assert(m2[b] == s0[si as int].matchups[b]);
                }
            }
            lemma_schedules_wf_set_matchups(s0, si as int, m2);
        }
        Ok(())
    }

    /// Simulate this matchup: each side scores `max(0, skill + offset)` for
    /// an offset drawn uniformly from -2..=4, and both scores are written
    /// onto the stored matchup, overwriting any prior result. Fails with
    /// `NotFound` when a referenced team or the matchup itself is missing,
    /// leaving the store unchanged.
    pub fn compute_scores(&self, store: &mut Store) -> (r: Result<(), Error>)
        requires
            old(store).wf(),
        ensures
            final(store).wf(),
            final(store).leagues@ == old(store).leagues@,
            final(store).tiers@ == old(store).tiers@,
            final(store).teams@ == old(store).teams@,
            final(store).game == old(store).game,
            match r {
                Ok(()) => {
                    let hskill = old(store).teams@[self.home_team_id - 1].skill as int;
                    let askill = old(store).teams@[self.away_team_id - 1].skill as int;
                    &&& 1 <= self.home_team_id <= old(store).teams@.len()
                    &&& 1 <= self.away_team_id <= old(store).teams@.len()
                    &&& exists|hs: i32, aws: i32|
                        {
                            &&& max_zero(hskill - 2) <= hs <= hskill + 4
                            &&& max_zero(askill - 2) <= aws <= askill + 4
                            &&& #[trigger] rescored(
                                old(store).sch(),
                                final(store).sch(),
                                self.id as int,
                                hs,
                                aws,
                            )
                        }
                },
                Err(e) => {
                    &&& e == Error::NotFound
                    &&& final(store).sch() == old(store).sch()
                    &&& !(1 <= self.home_team_id <= old(store).teams@.len() && 1
                        <= self.away_team_id <= old(store).teams@.len() && id_located(
                        old(store).sch(),
                        self.id as int,
                    ))
                },
            },
    {
        let home_team = Team::get(store, &self.home_team_id)?;
        let away_team = Team::get(store, &self.away_team_id)?;
        let home_offset = random_in_range(-2, 5);
        let away_offset = random_in_range(-2, 5);
        let hs_raw: i32 = home_team.skill + home_offset;
        let aws_raw: i32 = away_team.skill + away_offset;
        let hs: i32 = if hs_raw < 0 {
            0
        } else {
            hs_raw
        };
        let aws: i32 = if aws_raw < 0 {
            0
        } else {
            aws_raw
        };
        self.set_scores(store, hs, aws)
    }
}

/// `v` clamped below at zero.
pub open spec fn max_zero(v: int) -> int {
    if v < 0 {
        0
    } else {
        v
    }
}

} // verus!
