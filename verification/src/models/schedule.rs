//! Round-robin fixture scheduling: the pure circle-method scheduler and
//! the schedule records built from it.

use crate::models::matchup::Matchup;
use crate::models::team::{division_roster, Team};
use crate::store::{models_of, Store, MAX_FIXTURES, MAX_SCHEDULES};
use crate::Error;
use vstd::prelude::*;
use vstd::arithmetic::div_mod::{
    lemma_add_mod_noop, lemma_fundamental_div_mod, lemma_fundamental_div_mod_converse,
    lemma_fundamental_div_mod_converse_mod,
    lemma_mod_add_multiples_vanish, lemma_mod_division_less_than_divisor,
    lemma_mod_multiples_basic, lemma_mod_multiples_vanish, lemma_small_mod, lemma_sub_mod_noop,
};

verus! {

/// A season's fixture list for one division: a year, the owning tier and
/// league, and the ordered matchups.
#[derive(Debug)]
pub struct Schedule {
    pub id: i32,
    pub year: i32,
    pub tier_id: i32,
    pub league_id: i32,
    pub matchups: Vec<Matchup>,
}

/// The mathematical model of a `Schedule`: the same record with its
/// matchups as a sequence.
pub ghost struct ScheduleModel {
    pub id: int,
    pub year: int,
    pub tier_id: int,
    pub league_id: int,
    pub matchups: Seq<Matchup>,
}

impl View for Schedule {
    type V = ScheduleModel;

    open spec fn view(&self) -> ScheduleModel {
        ScheduleModel {
            id: self.id as int,
            year: self.year as int,
            tier_id: self.tier_id as int,
            league_id: self.league_id as int,
            matchups: self.matchups@,
        }
    }
}

impl Clone for Schedule {
    fn clone(&self) -> (r: Self)
        ensures
            r@ == self@,
    {
        let mut matchups: Vec<Matchup> = Vec::new();
        let mut i: usize = 0;
        while i < self.matchups.len()
            invariant
                i <= self.matchups@.len(),
                matchups@ == self.matchups@.subrange(0, i as int),
            decreases self.matchups@.len() - i,
        {
            matchups.push(self.matchups[i]);
            proof {
                assert(matchups@ =~= self.matchups@.subrange(0, i + 1));
            }
            i = i + 1;
        }
        proof {
            assert(matchups@ =~= self.matchups@);
        }
        Schedule {
            id: self.id,
            year: self.year,
            tier_id: self.tier_id,
            league_id: self.league_id,
            matchups,
        }
    }
}

/// The bare schedule record, without its matchups.
#[derive(Clone, Copy, Debug)]
pub struct ScheduleRow {
    pub id: i32,
    pub tier_id: i32,
    pub league_id: i32,
    pub year: i32,
}

/// One fixture: the home team hosts the away team.
pub struct ScheduledMatch {
    pub home_id: i32,
    pub away_id: i32,
}

/// One week of fixtures; `wk_no` is 1-based.
pub struct ScheduledWeek {
    pub wk_no: i32,
    pub matches: Vec<ScheduledMatch>,
}

/// The pure round-robin scheduler (circle method, no I/O, no randomness).
pub struct Scheduler;

/// Position (index into the original team list) sitting at circle slot `j`
/// in rotation `w`, for `n` teams. Slot 0 is the fixed team; the remaining
/// `n - 1` slots rotate by one place each week.
pub open spec fn pos_at(n: int, w: int, j: int) -> int {
    if j == 0 {
        0
    } else {
        1 + ((j - 1 - w) % (n - 1))
    }
}

/// The circle slot occupied by position `p` in rotation `w`: the inverse of
/// `pos_at(n, w, _)`.
pub open spec fn slot_of(n: int, w: int, p: int) -> int {
    if p == 0 {
        0
    } else {
        1 + ((p - 1 + w) % (n - 1))
    }
}

/// The fixture produced for week `w` (0-based rotation) at match index `i`:
/// slot `n - 1 - i` hosts slot `i`. Returns `(home, away)`.
pub open spec fn pair_at(players: Seq<i32>, w: int, i: int) -> (i32, i32) {
    let n = players.len() as int;
    (players[pos_at(n, w, n - 1 - i)], players[pos_at(n, w, i)])
}

/// `n` is an even team count large enough to schedule.
pub open spec fn valid_team_count(n: int) -> bool {
    n >= 2 && n % 2 == 0
}

/// The full double round-robin produced for `players`: `2 * (n - 1)` weeks
/// numbered from 1, each of `n / 2` fixtures; the first leg follows the
/// circle method (`pair_at`), and the second leg repeats the first with the
/// home and away roles swapped.
pub open spec fn rr_schedule(players: Seq<i32>, weeks: Seq<ScheduledWeek>) -> bool {
    let n = players.len() as int;
    let m = n - 1;
    &&& weeks.len() == 2 * m
    &&& (forall|w: int|
        0 <= w < 2 * m ==> (#[trigger] weeks[w]).wk_no == w + 1 && weeks[w].matches@.len() == n
            / 2)
    &&& (forall|w: int, i: int|
        0 <= w < m && 0 <= i < n / 2 ==> {
            let (h, a) = pair_at(players, w, i);
            (#[trigger] weeks[w].matches@[i]).home_id == h && weeks[w].matches@[i].away_id == a
        })
    &&& (forall|w: int, i: int|
        m <= w < 2 * m && 0 <= i < n / 2 ==> (#[trigger] weeks[w].matches@[i]).home_id
            == weeks[w - m].matches@[i].away_id && weeks[w].matches@[i].away_id == weeks[w
            - m].matches@[i].home_id)
}

impl Scheduler {
    /// Build the home leg: weeks numbered `wks.len() + 1 ..= n - 1`, appended
    /// to `wks`, pairing slot `i` against slot `n - 1 - i` under the rotation
    /// that has advanced once per appended week. An odd team count yields no
    /// schedule at all.
    pub fn schedule_weeks(teams: &Vec<i32>, wks: Vec<ScheduledWeek>) -> (r: Vec<ScheduledWeek>)
        requires
            teams@.len() < 0x1000_0000,
            teams@.len() % 2 == 0 ==> teams@.len() >= 2 && wks@.len() < teams@.len() - 1,
        ensures
            teams@.len() % 2 == 1 ==> r@.len() == 0,
            teams@.len() % 2 == 0 ==> {
                let n = teams@.len() as int;
                &&& r@.len() == n - 1
                &&& (forall|w: int| 0 <= w < wks@.len() ==> r@[w] == wks@[w])
                &&& (forall|w: int|
                    wks@.len() <= w < n - 1 ==> (#[trigger] r@[w]).wk_no == w + 1
                        && r@[w].matches@.len() == n / 2)
                &&& (forall|w: int, i: int|
                    wks@.len() <= w < n - 1 && 0 <= i < n / 2 ==> {
                        let (h, a) = pair_at(teams@, w - wks@.len(), i);
                        (#[trigger] r@[w].matches@[i]).home_id == h && r@[w].matches@[i].away_id
                            == a
                    })
            },
    {
        let n: usize = teams.len();
        if n % 2 != 0 {
            return Vec::new();
        }
        let m: usize = n - 1;
        let half: usize = n / 2;
        let k0: usize = wks.len();
        let ghost wks0: Seq<ScheduledWeek> = wks@;
        let mut result: Vec<ScheduledWeek> = wks;
        let mut rot: usize = 0;
        while result.len() < m
            invariant
                n == teams@.len(),
                valid_team_count(n as int),
                n < 0x1000_0000,
                m == n - 1,
                half == n / 2,
                k0 < m,
                k0 <= result@.len() <= m,
                rot == result@.len() - k0,
                wks0.len() == k0,
                forall|w: int| 0 <= w < k0 ==> result@[w] == wks0[w],
                forall|w: int|
                    k0 <= w < result@.len() ==> (#[trigger] result@[w]).wk_no == w + 1
                        && result@[w].matches@.len() == n / 2,
                forall|w: int, i: int|
                    k0 <= w < result@.len() && 0 <= i < n / 2 ==> {
                        let (h, a) = pair_at(teams@, w - k0, i);
                        (#[trigger] result@[w].matches@[i]).home_id == h
                            && result@[w].matches@[i].away_id == a
                    },
            decreases m - result.len(),
        {
            let mut matches: Vec<ScheduledMatch> = Vec::new();
            let mut i: usize = 0;
            while i < half
                invariant
                    n == teams@.len(),
                    valid_team_count(n as int),
                    n < 0x1000_0000,
                    m == n - 1,
                    half == n / 2,
                    rot < m,
                    i <= half,
                    matches@.len() == i,
                    forall|k: int|
                        0 <= k < i ==> {
                            let (h, a) = pair_at(teams@, rot as int, k);
                            (#[trigger] matches@[k]).home_id == h && matches@[k].away_id == a
                        },
                decreases half - i,
            {
                let away_pos: usize = if i == 0 {
                    0
                } else {
                    1 + ((i - 1 + m - rot) % m)
                };
                let home_pos: usize = 1 + ((n - 2 - i + m - rot) % m);
                proof {
                    lemma_mod_add_multiples_vanish(i as int - 1 - rot, m as int);
                    lemma_mod_add_multiples_vanish(n as int - 2 - i - rot, m as int);
                    lemma_mod_division_less_than_divisor(i as int - 1 - rot, m as int);
                    lemma_mod_division_less_than_divisor(n as int - 2 - i - rot, m as int);
                    assert(away_pos as int == pos_at(n as int, rot as int, i as int));
                    assert(home_pos as int == pos_at(n as int, rot as int, n - 1 - i));
                }
                matches.push(ScheduledMatch { home_id: teams[home_pos], away_id: teams[away_pos] });
                i = i + 1;
            }
            let wk_no: i32 = (result.len() + 1) as i32;
            result.push(ScheduledWeek { wk_no, matches });
            rot = rot + 1;
        }
        result
    }

    /// Produce the double round-robin for `players`: the home leg from
    /// `schedule_weeks`, then every fixture again with roles swapped, in
    /// weeks numbered `n ..= 2 * (n - 1)`. An odd or too-small team list is
    /// refused outright; no partial or bye-padded schedule is ever returned.
    pub fn round_robin(players: Vec<i32>) -> (r: Result<Vec<ScheduledWeek>, crate::Error>)
        requires
            players@.len() < 0x1000_0000,
        ensures
            match r {
                Ok(weeks) => valid_team_count(players@.len() as int) && rr_schedule(
                    players@,
                    weeks@,
                ),
                Err(e) => e == crate::Error::InvalidInput && !valid_team_count(
                    players@.len() as int,
                ),
            },
    {
        let n: usize = players.len();
        if n < 2 || n % 2 != 0 {
            return Err(crate::Error::InvalidInput);
        }
        let m: usize = n - 1;
        let half: usize = n / 2;
        let mut weeks: Vec<ScheduledWeek> = Self::schedule_weeks(&players, Vec::new());
        let mut w: usize = 0;
        while w < m
            invariant
                n == players@.len(),
                valid_team_count(n as int),
                n < 0x1000_0000,
                m == n - 1,
                half == n / 2,
                w <= m,
                weeks@.len() == m + w,
                forall|k: int|
                    0 <= k < m + w ==> (#[trigger] weeks@[k]).wk_no == k + 1
                        && weeks@[k].matches@.len() == n / 2,
                forall|k: int, i: int|
                    0 <= k < m && 0 <= i < n / 2 ==> {
                        let (h, a) = pair_at(players@, k, i);
                        (#[trigger] weeks@[k].matches@[i]).home_id == h
                            && weeks@[k].matches@[i].away_id == a
                    },
                forall|k: int, i: int|
                    m <= k < m + w && 0 <= i < n / 2 ==> (#[trigger] weeks@[k].matches@[i]).home_id
                        == weeks@[k - m].matches@[i].away_id && weeks@[k].matches@[i].away_id
                        == weeks@[k - m].matches@[i].home_id,
            decreases m - w,
        {
            let mut ms: Vec<ScheduledMatch> = Vec::new();
            let mut i: usize = 0;
            while i < half
                invariant
                    n == players@.len(),
                    n < 0x1000_0000,
                    m == n - 1,
                    half == n / 2,
                    w < m,
                    weeks@.len() == m + w,
                    i <= half,
                    ms@.len() == i,
                    forall|k: int|
                        0 <= k < m + w ==> (#[trigger] weeks@[k]).matches@.len() == n / 2,
                    forall|k: int|
                        0 <= k < i ==> (#[trigger] ms@[k]).home_id == weeks@[w as int].matches@[k].away_id
                            && ms@[k].away_id == weeks@[w as int].matches@[k].home_id,
                decreases half - i,
            {
                let home_id: i32 = weeks[w].matches[i].away_id;
                let away_id: i32 = weeks[w].matches[i].home_id;
                ms.push(ScheduledMatch { home_id, away_id });
                i = i + 1;
            }
            let wk_no: i32 = (weeks.len() + 1) as i32;
            weeks.push(ScheduledWeek { wk_no, matches: ms });
            w = w + 1;
        }
        Ok(weeks)
    }
}

/// The number of fixtures in a double round-robin over `n` teams.
pub open spec fn rr_matchup_count(n: int) -> int {
    2 * (n - 1) * (n / 2)
}

/// The `k`-th matchup record created for schedule `sid` from the double
/// round-robin over `ids`: fixture `k % (n / 2)` of week `k / (n / 2)`,
/// unscored, under the identifier encoding its place.
pub open spec fn rr_fixture(ids: Seq<i32>, sid: int, k: int) -> Matchup {
    let n = ids.len() as int;
    let half = n / 2;
    let w = k / half;
    let i = k % half;
    let home = if w < n - 1 {
        ids[pos_at(n, w, n - 1 - i)]
    } else {
        ids[pos_at(n, w - (n - 1), i)]
    };
    let away = if w < n - 1 {
        ids[pos_at(n, w, i)]
    } else {
        ids[pos_at(n, w - (n - 1), n - 1 - i)]
    };
    Matchup {
        id: ((sid - 1) * (crate::store::MAX_FIXTURES as int) + k + 1) as i32,
        wk_no: (w + 1) as i32,
        home_team_id: home,
        away_team_id: away,
        home_team_score: None,
        away_team_score: None,
    }
}

impl Schedule {
    /// Store a new, empty schedule for `(year, tier, league)` under the
    /// next free identifier and return it.
    pub fn create_empty(store: &mut Store, year: i32, tier_id: i32, league_id: i32) -> (s: Schedule)
        requires
            old(store).wf(),
            old(store).sch().len() < crate::store::MAX_SCHEDULES,
        ensures
            final(store).wf(),
            s@ == (ScheduleModel {
                id: old(store).sch().len() as int + 1,
                year: year as int,
                tier_id: tier_id as int,
                league_id: league_id as int,
                matchups: Seq::<Matchup>::empty(),
            }),
            final(store).sch() == old(store).sch().push(s@),
            final(store).leagues@ == old(store).leagues@,
            final(store).tiers@ == old(store).tiers@,
            final(store).teams@ == old(store).teams@,
            final(store).game == old(store).game,
    {
        let id: i32 = (store.schedules.len() + 1) as i32;
        let s = Schedule { id, year, tier_id, league_id, matchups: Vec::new() };
        let r = s.clone();
        let ghost s0 = store.sch();
        store.schedules.push(s);
        proof {
            assert(final(store).sch() =~= s0.push(r@));
            crate::store::lemma_schedules_wf_push(s0, r@);
        }
        r
    }

    /// Every schedule with its matchups, in store order.
    pub fn get_all(store: &Store) -> (r: Vec<Schedule>)
        requires
            store.wf(),
        ensures
            models_of(r@) == store.sch(),
    {
        let mut out: Vec<Schedule> = Vec::new();
        let mut i: usize = 0;
        while i < store.schedules.len()
            invariant
                i <= store.schedules@.len(),
                models_of(out@) == store.sch().subrange(0, i as int),
            decreases store.schedules@.len() - i,
        {
            let ghost om = models_of(out@);
            let c = store.schedules[i].clone();
            proof {
                assert(c@ == store.sch()[i as int]);
            }
            out.push(c);
            proof {
                assert(models_of(out@) =~= om.push(c@));
                assert(om.push(c@) =~= store.sch().subrange(0, i + 1));
            }
            i = i + 1;
        }
        proof {
            assert(store.sch().subrange(0, store.sch().len() as int) =~= store.sch());
        }
        out
    }

    /// Every schedule of season `year` with its matchups, in store order.
    pub fn get_all_by_year(store: &Store, year: &i32) -> (r: Vec<Schedule>)
        requires
            store.wf(),
        ensures
            models_of(r@) == store.sch().filter(|sm: ScheduleModel| sm.year == *year as int),
    {
        let mut out: Vec<Schedule> = Vec::new();
        let mut i: usize = 0;
        while i < store.schedules.len()
            invariant
                store.wf(),
                i <= store.schedules@.len(),
                models_of(out@) == store.sch().subrange(0, i as int).filter(
                    |sm: ScheduleModel| sm.year == *year as int,
                ),
            decreases store.schedules@.len() - i,
        {
            proof {
                assert(store.sch().subrange(0, i + 1) =~= store.sch().subrange(0, i as int).push(
                    store.sch()[i as int],
                ));
                crate::store::lemma_filter_push(
                    store.sch().subrange(0, i as int),
                    store.sch()[i as int],
                    |sm: ScheduleModel| sm.year == *year as int,
                );
            }
            if store.schedules[i].year == *year {
                let ghost om = models_of(out@);
                let c = store.schedules[i].clone();
                proof {
                    assert(c@ == store.sch()[i as int]);
                }
                out.push(c);
                proof {
                    assert(models_of(out@) =~= om.push(c@));
                }
            }
            i = i + 1;
        }
        proof {
            assert(store.sch().subrange(0, store.sch().len() as int) =~= store.sch());
        }
        out
    }

    /// Create and persist a full double round-robin schedule for the
    /// division `(league_id, tier_id)` in season `year`: a fresh schedule
    /// record followed by one matchup per fixture of `Scheduler::round_robin`
    /// over the division's team identifiers, in week-major order.
    ///
    /// An empty roster is a precondition violation; an odd roster has no
    /// round-robin schedule; a roster of more than 256 teams, or a full
    /// store, would exhaust the identifier space and is refused as invalid
    /// input.
    pub fn create_round_robin(store: &mut Store, league_id: i32, tier_id: i32, year: i32) -> (r:
        Result<Schedule, Error>)
        requires
            old(store).wf(),
        ensures
            final(store).wf(),
            final(store).leagues@ == old(store).leagues@,
            final(store).tiers@ == old(store).tiers@,
            final(store).teams@ == old(store).teams@,
            final(store).game == old(store).game,
            ({
                let ids = division_roster(*old(store), league_id, tier_id).map_values(
                    |t: Team| t.id,
                );
                let n = ids.len() as int;
                match r {
                    Ok(s) => {
                        &&& valid_team_count(n)
                        &&& n <= 256
                        &&& old(store).sch().len() < MAX_SCHEDULES
                        &&& s@.id == old(store).sch().len() as int + 1
                        &&& s@.year == year as int
                        &&& s@.tier_id == tier_id as int
                        &&& s@.league_id == league_id as int
                        &&& s@.matchups.len() == rr_matchup_count(n)
                        &&& (forall|k: int|
                            0 <= k < rr_matchup_count(n) ==> (#[trigger] s@.matchups[k])
                                == rr_fixture(ids, s@.id, k))
                        &&& final(store).sch() == old(store).sch().push(s@)
                    },
                    Err(e) => {
                        &&& final(store).sch() == old(store).sch()
                        &&& (e == Error::PreconditionViolated || e == Error::InvalidRosterSize || e
                            == Error::InvalidInput)
                        &&& (e == Error::PreconditionViolated <==> n == 0)
                        &&& (e == Error::InvalidRosterSize <==> n % 2 == 1)
                        &&& (e == Error::InvalidInput <==> valid_team_count(n) && (n > 256 || old(
                            store,
                        ).sch().len() >= MAX_SCHEDULES))
                    },
                }
            }),
    {
        let roster: Vec<Team> = Team::get_by_division(store, league_id, tier_id);
        let n: usize = roster.len();
        if n == 0 {
            return Err(Error::PreconditionViolated);
        }
        if n % 2 != 0 {
            return Err(Error::InvalidRosterSize);
        }
        if n > 256 {
            return Err(Error::InvalidInput);
        }
        if store.schedules.len() >= MAX_SCHEDULES {
            return Err(Error::InvalidInput);
        }
        let m: usize = n - 1;
        let half: usize = n / 2;
        let mut team_ids: Vec<i32> = Vec::new();
        let mut ti: usize = 0;
        while ti < roster.len()
            invariant
                ti <= roster.len(),
                team_ids@.len() == ti,
                forall|j: int| 0 <= j < ti ==> team_ids@[j] == roster@[j].id,
            decreases roster.len() - ti,
        {
            team_ids.push(roster[ti].id);
            ti = ti + 1;
        }
        let ghost ids: Seq<i32> = roster@.map_values(|t: Team| t.id);
        proof {
            assert(team_ids@ =~= ids);
        }
        let wks: Vec<ScheduledWeek> = match Scheduler::round_robin(team_ids) {
            Ok(w) => w,
            Err(_) => {
                proof {
                    assert(false);
                }
                return Err(Error::InvalidInput);
            }
        };
        let ghost s0 = store.sch();
        let mut sched = Schedule::create_empty(store, year, tier_id, league_id);
        let sid: i32 = sched.id;
        let mut w: usize = 0;
        while w < wks.len()
            invariant
                store.wf(),
                store.leagues@ == old(store).leagues@,
                store.tiers@ == old(store).tiers@,
                store.teams@ == old(store).teams@,
                store.game == old(store).game,
                s0 == old(store).sch(),
                s0.len() < MAX_SCHEDULES,
                ids.len() == n,
                valid_team_count(n as int),
                n <= 256,
                m == n - 1,
                half == n / 2,
                rr_schedule(ids, wks@),
                w <= wks@.len(),
                sid == s0.len() + 1,
                sched.id == sid,
                sched.year == year,
                sched.tier_id == tier_id,
                sched.league_id == league_id,
                sched.matchups@.len() == w * half,
                forall|k: int|
                    0 <= k < sched.matchups@.len() ==> (#[trigger] sched.matchups@[k])
                        == rr_fixture(ids, sid as int, k),
                store.sch() == s0.push(sched@),
            decreases wks@.len() - w,
        {
            let mut i: usize = 0;
            while i < half
                invariant
                    store.wf(),
                    store.leagues@ == old(store).leagues@,
                    store.tiers@ == old(store).tiers@,
                    store.teams@ == old(store).teams@,
                    store.game == old(store).game,
                    s0 == old(store).sch(),
                    s0.len() < MAX_SCHEDULES,
                    ids.len() == n,
                    valid_team_count(n as int),
                    n <= 256,
                    m == n - 1,
                    half == n / 2,
                    rr_schedule(ids, wks@),
                    w < wks@.len(),
                    i <= half,
                    sid == s0.len() + 1,
                    sched.id == sid,
                    sched.year == year,
                    sched.tier_id == tier_id,
                    sched.league_id == league_id,
                    sched.matchups@.len() == w * half + i,
                    forall|k: int|
                        0 <= k < sched.matchups@.len() ==> (#[trigger] sched.matchups@[k])
                            == rr_fixture(ids, sid as int, k),
                    store.sch() == s0.push(sched@),
                decreases half - i,
            {
                let ghost k = sched.matchups@.len() as int;
                proof {
                    assert(k == w * half + i);
                    assert(k < 2 * (m as int) * (half as int)) by (nonlinear_arith)
                        requires
                            k == w * half + i,
                            w < 2 * m,
                            i < half,
                            0 < half,
                            0 < m,
                    ;
                    assert(2 * (m as int) * (half as int) <= 65280) by (nonlinear_arith)
                        requires
                            m <= 255,
                            half <= 128,
                            0 < m,
                            0 < half,
                    ;
                    lemma_fundamental_div_mod_converse(k, half as int, w as int, i as int);
                }
                let home_id: i32 = wks[w].matches[i].home_id;
                let away_id: i32 = wks[w].matches[i].away_id;
                let wk_no: i32 = wks[w].wk_no;
                let ghost sched_before = sched@;
                let cm: Matchup = match Matchup::create(store, home_id, away_id, wk_no, 0, sid) {
                    Ok(cm) => cm,
                    Err(_) => {
                        proof {
                            assert(1 <= sid <= store.sch().len());
                            assert(false);
                        }
                        return Err(Error::InvalidInput);
                    }
                };
                sched.matchups.push(cm);
                proof {
                    assert(store.sch() =~= s0.push(sched@));
                    assert(cm == rr_fixture(ids, sid as int, k));
                }
                i = i + 1;
            }
            proof {
                assert((w + 1) * half == w * half + half) by (nonlinear_arith);
            }
            w = w + 1;
        }
        proof {
            assert(sched.matchups@.len() == 2 * (m as int) * (half as int)) by (nonlinear_arith)
                requires
                    sched.matchups@.len() == wks@.len() * half,
                    wks@.len() == 2 * m,
            ;
            assert(rr_matchup_count(n as int) == 2 * (m as int) * (half as int));
        }
        Ok(sched)
    }
}

/// The circle slots `i` and `n - 1 - i` of week `w` hold exactly the
/// positions `p` and `q`, in either orientation.
pub open spec fn slots_pair(n: int, w: int, i: int, p: int, q: int) -> bool {
    ||| (pos_at(n, w, n - 1 - i) == p && pos_at(n, w, i) == q)
    ||| (pos_at(n, w, n - 1 - i) == q && pos_at(n, w, i) == p)
}

/// Week `w` (0-based, first leg) match `i` is between players `x` and `y`,
/// in either orientation.
pub open spec fn rr_meets(players: Seq<i32>, w: int, i: int, x: i32, y: i32) -> bool {
    let n = players.len() as int;
    &&& 0 <= w < n - 1
    &&& 0 <= i < n / 2
    &&& (pair_at(players, w, i) == (x, y) || pair_at(players, w, i) == (y, x))
}

/// Some first-leg fixture is between the players at indexes `p` and `q`.
pub open spec fn rr_covers(players: Seq<i32>, p: int, q: int) -> bool {
    exists|w: int, i: int| rr_meets(players, w, i, players[p], players[q])
}

/// A value strictly between `-m` and `m` that is a multiple of `m` is zero.
proof fn lemma_mod_zero_small(d: int, m: int)
    requires
        m > 0,
        -m < d < m,
        d % m == 0,
    ensures
        d == 0,
{
    if d > 0 {
        lemma_small_mod(d as nat, m as nat);
    } else if d < 0 {
        lemma_fundamental_div_mod_converse_mod(d, m, -1, d + m);
    }
}

/// If `2 * d` is a multiple of the odd modulus `m`, so is `d`.
proof fn lemma_even_multiple_of_odd(d: int, m: int)
    requires
        m > 0,
        m % 2 == 1,
        (2 * d) % m == 0,
    ensures
        d % m == 0,
{
    let k = (2 * d) / m;
    lemma_fundamental_div_mod(2 * d, m);
    assert(2 * d == m * k);
    lemma_fundamental_div_mod(k, 2);
    if k % 2 == 1 {
        let u = m / 2;
        let v = k / 2;
        lemma_fundamental_div_mod(m, 2);
        assert(m == 2 * u + 1 && k == 2 * v + 1);
        assert(m * k == 2 * (2 * u * v + u + v) + 1) by (nonlinear_arith)
            requires
                m == 2 * u + 1,
                k == 2 * v + 1,
        ;
        lemma_fundamental_div_mod_converse_mod(m * k, 2, 2 * u * v + u + v, 1);
        assert((2 * d) % 2 == 0) by {
            lemma_mod_multiples_basic(d, 2);
        }
        assert(false);
    }
    let t = k / 2;
    assert(2 * d == m * (2 * t));
    assert(d == t * m) by (nonlinear_arith)
        requires
            2 * d == m * (2 * t),
    ;
    lemma_mod_multiples_basic(t, m);
}

/// `slot_of` inverts `pos_at`: position `p` really sits at its slot.
proof fn lemma_pos_slot_inverse(n: int, w: int, p: int)
    requires
        valid_team_count(n),
        0 <= w,
        0 <= p < n,
    ensures
        0 <= slot_of(n, w, p) < n,
        pos_at(n, w, slot_of(n, w, p)) == p,
{
    let m = n - 1;
    if p != 0 {
        let s = (p - 1 + w) % m;
        lemma_mod_division_less_than_divisor(p - 1 + w, m);
        let q = (p - 1 + w) / m;
        lemma_fundamental_div_mod(p - 1 + w, m);
        assert(m * (-q) == -(m * q)) by (nonlinear_arith);
        assert(s - w == m * (-q) + (p - 1));
        lemma_mod_multiples_vanish(-q, p - 1, m);
        lemma_small_mod((p - 1) as nat, m as nat);
        assert((s - w) % m == p - 1);
    }
}

/// `pos_at` inverts `slot_of`: the position found in slot `j` has slot `j`.
proof fn lemma_slot_pos_inverse(n: int, w: int, j: int)
    requires
        valid_team_count(n),
        0 <= w,
        0 <= j < n,
    ensures
        0 <= pos_at(n, w, j) < n,
        slot_of(n, w, pos_at(n, w, j)) == j,
{
    let m = n - 1;
    if j != 0 {
        let s = (j - 1 - w) % m;
        lemma_mod_division_less_than_divisor(j - 1 - w, m);
        let q = (j - 1 - w) / m;
        lemma_fundamental_div_mod(j - 1 - w, m);
        assert(m * (-q) == -(m * q)) by (nonlinear_arith);
        assert(s + w == m * (-q) + (j - 1));
        lemma_mod_multiples_vanish(-q, j - 1, m);
        lemma_small_mod((j - 1) as nat, m as nat);
        assert((s + w) % m == j - 1);
    }
}

/// When two nonzero positions share a week's match, the rotation satisfies
/// a fixed congruence: their slots sum to `n - 1`, so
/// `(p - 1) + (q - 1) + 2 * w == n - 3  (mod n - 1)`.
proof fn lemma_week_congruence(n: int, w: int, p: int, q: int)
    requires
        valid_team_count(n),
        0 <= w,
        1 <= p < n,
        1 <= q < n,
        slot_of(n, w, p) + slot_of(n, w, q) == n - 1,
    ensures
        (p - 1 + q - 1 + 2 * w) % (n - 1) == n - 3,
{
    let m = n - 1;
    let ra = (p - 1 + w) % m;
    let rb = (q - 1 + w) % m;
    lemma_mod_division_less_than_divisor(p - 1 + w, m);
    lemma_mod_division_less_than_divisor(q - 1 + w, m);
    assert(ra + rb == m - 2);
    lemma_add_mod_noop(p - 1 + w, q - 1 + w, m);
    lemma_small_mod((m - 2) as nat, m as nat);
}

/// Every unordered pair of distinct positions shares a match in some week
/// of the first leg.
proof fn lemma_position_meet_exists(n: int, p: int, q: int)
    requires
        valid_team_count(n),
        0 <= p < n,
        0 <= q < n,
        p != q,
    ensures
        exists|w: int, i: int|
            0 <= w < n - 1 && 0 <= i < n / 2 && slots_pair(n, w, i, p, q),
{
    let m = n - 1;
    if p == 0 || q == 0 {
        let t = if p == 0 {
            q
        } else {
            p
        };
        let w = m - t;
        lemma_small_mod((t - 1) as nat, m as nat);
        assert(pos_at(n, w, n - 1) == t);
        assert(0 <= w < n - 1 && 0 <= 0 < n / 2 && slots_pair(n, w, 0, p, q));
    } else {
        let a = p - 1;
        let b = q - 1;
        let c = (2 * m - 2 - a - b) % m;
        lemma_mod_division_less_than_divisor(2 * m - 2 - a - b, m);
        let w = if c % 2 == 0 {
            c / 2
        } else {
            (c + m) / 2
        };
        lemma_fundamental_div_mod(c, 2);
        lemma_fundamental_div_mod(c + m, 2);
        if c % 2 == 0 {
            assert(2 * w == c);
            lemma_small_mod(c as nat, m as nat);
            assert((2 * w) % m == c);
        } else {
            assert((c + m) % 2 == 0) by {
                lemma_fundamental_div_mod_converse_mod(c + m, 2, c / 2 + m / 2 + 1, 0);
                assert(c == 2 * (c / 2) + 1);
                assert(m == 2 * (m / 2) + 1) by {
                    lemma_fundamental_div_mod(m, 2);
                }
            }
            assert(2 * w == c + m);
            lemma_mod_add_multiples_vanish(c, m);
            lemma_small_mod(c as nat, m as nat);
            assert((2 * w) % m == c);
        }
        assert(0 <= w < m);
        let ra = (a + w) % m;
        let rb = (b + w) % m;
        lemma_mod_division_less_than_divisor(a + w, m);
        lemma_mod_division_less_than_divisor(b + w, m);
        assert((ra + rb) % m == m - 2) by {
            lemma_add_mod_noop(a + w, b + w, m);
            lemma_add_mod_noop(a + b, 2 * w, m);
            lemma_add_mod_noop(a + b, 2 * m - 2 - a - b, m);
            lemma_mod_add_multiples_vanish(m - 2, m);
            lemma_small_mod((m - 2) as nat, m as nat);
        }
        if ra + rb < m {
            lemma_small_mod((ra + rb) as nat, m as nat);
        } else {
            lemma_fundamental_div_mod_converse_mod(ra + rb, m, 1, ra + rb - m);
            assert(ra == m - 1 && rb == m - 1);
            assert((a + w) % m == (b + w) % m);
            lemma_sub_mod_noop(a + w, b + w, m);
            lemma_small_mod(0 as nat, m as nat);
            lemma_mod_zero_small(a - b, m);
            assert(false);
        }
        assert(ra + rb == m - 2);
        let ja = 1 + ra;
        let jb = 1 + rb;
        assert(ja + jb == m);
        assert(ja != jb) by {
            if ja == jb {
                lemma_fundamental_div_mod_converse_mod(m, 2, ja, 0);
            }
        }
        lemma_pos_slot_inverse(n, w, p);
        lemma_pos_slot_inverse(n, w, q);
        let i = if ja < jb {
            ja
        } else {
            jb
        };
        assert(n == 2 * (n / 2)) by {
            lemma_fundamental_div_mod(n, 2);
        }
        assert(0 <= w < n - 1 && 0 <= i < n / 2 && slots_pair(n, w, i, p, q));
    }
}

/// Two first-leg matches between the same two positions are the same match.
proof fn lemma_position_meet_unique(
    n: int,
    p: int,
    q: int,
    w1: int,
    i1: int,
    w2: int,
    i2: int,
)
    requires
        valid_team_count(n),
        0 <= p < n,
        0 <= q < n,
        p != q,
        0 <= w1 < n - 1,
        0 <= i1 < n / 2,
        0 <= w2 < n - 1,
        0 <= i2 < n / 2,
        slots_pair(n, w1, i1, p, q),
        slots_pair(n, w2, i2, p, q),
    ensures
        w1 == w2,
        i1 == i2,
{
    let m = n - 1;
    lemma_slot_pos_inverse(n, w1, i1);
    lemma_slot_pos_inverse(n, w1, n - 1 - i1);
    lemma_slot_pos_inverse(n, w2, i2);
    lemma_slot_pos_inverse(n, w2, n - 1 - i2);
    assert(n == 2 * (n / 2)) by {
        lemma_fundamental_div_mod(n, 2);
    }
    if p == 0 || q == 0 {
        let t = if p == 0 {
            q
        } else {
            p
        };
        assert(i1 == 0 && i2 == 0);
        assert(slot_of(n, w1, t) == n - 1);
        assert(slot_of(n, w2, t) == n - 1);
        lemma_sub_mod_noop(t - 1 + w1, t - 1 + w2, m);
        lemma_small_mod(0 as nat, m as nat);
        lemma_mod_zero_small(w1 - w2, m);
    } else {
        assert(slot_of(n, w1, p) + slot_of(n, w1, q) == n - 1);
        assert(slot_of(n, w2, p) + slot_of(n, w2, q) == n - 1);
        lemma_week_congruence(n, w1, p, q);
        lemma_week_congruence(n, w2, p, q);
        lemma_sub_mod_noop(p - 1 + q - 1 + 2 * w1, p - 1 + q - 1 + 2 * w2, m);
        lemma_small_mod(0 as nat, m as nat);
        assert((2 * (w1 - w2)) % m == 0);
        assert(m % 2 == 1);
        lemma_even_multiple_of_odd(w1 - w2, m);
        lemma_mod_zero_small(w1 - w2, m);
        assert(i1 == i2);
    }
}

/// Law: over a distinct, even-sized player list the first leg of the
/// round-robin schedule pairs every two players exactly once: each unordered
/// pair meets in some week, and no two distinct fixtures of the leg are
/// between the same two players. Together with the mirrored second leg of
/// `rr_schedule`, every unordered pair therefore appears exactly twice in
/// the full schedule, once in each home/away orientation.
pub proof fn lemma_round_robin_covers_all_pairs(players: Seq<i32>)
    requires
        valid_team_count(players.len() as int),
        players.no_duplicates(),
    ensures
        forall|p: int, q: int|
            0 <= p < players.len() && 0 <= q < players.len() && p != q ==> #[trigger] rr_covers(
                players,
                p,
                q,
            ),
        forall|w1: int, i1: int, w2: int, i2: int, x: i32, y: i32|
            x != y && #[trigger] rr_meets(players, w1, i1, x, y) && #[trigger] rr_meets(
                players,
                w2,
                i2,
                x,
                y,
            ) ==> w1 == w2 && i1 == i2,
{
    let n = players.len() as int;
    assert forall|p: int, q: int|
        0 <= p < players.len() && 0 <= q < players.len() && p != q implies #[trigger] rr_covers(
        players,
        p,
        q,
    ) by {
        lemma_position_meet_exists(n, p, q);
        let (w, i) = choose|w: int, i: int|
            0 <= w < n - 1 && 0 <= i < n / 2 && slots_pair(n, w, i, p, q);
        lemma_slot_pos_inverse(n, w, i);
        lemma_slot_pos_inverse(n, w, n - 1 - i);
        assert(rr_meets(players, w, i, players[p], players[q]));
    }
    assert forall|w1: int, i1: int, w2: int, i2: int, x: i32, y: i32|
        x != y && #[trigger] rr_meets(players, w1, i1, x, y) && #[trigger] rr_meets(
        players,
        w2,
        i2,
        x,
        y,
    ) implies w1 == w2 && i1 == i2 by {
        lemma_slot_pos_inverse(n, w1, i1);
        lemma_slot_pos_inverse(n, w1, n - 1 - i1);
        lemma_slot_pos_inverse(n, w2, i2);
        lemma_slot_pos_inverse(n, w2, n - 1 - i2);
        let p = pos_at(n, w1, n - 1 - i1);
        let q = pos_at(n, w1, i1);
        let h2 = pos_at(n, w2, n - 1 - i2);
        let a2 = pos_at(n, w2, i2);
        assert(p != q) by {
            if p == q {
                assert(players[p] == players[q]);
            }
        }
        assert(slots_pair(n, w1, i1, p, q));
        assert(slots_pair(n, w2, i2, p, q)) by {
            if players[h2] == players[p] {
                lemma_no_dup_index(players, h2, p);
                lemma_no_dup_index(players, a2, q);
            } else {
                lemma_no_dup_index(players, h2, q);
                lemma_no_dup_index(players, a2, p);
            }
        }
        lemma_position_meet_unique(n, p, q, w1, i1, w2, i2);
    }
}

/// Distinct indexes of a duplicate-free sequence hold distinct values.
proof fn lemma_no_dup_index(players: Seq<i32>, a: int, b: int)
    requires
        players.no_duplicates(),
        0 <= a < players.len(),
        0 <= b < players.len(),
        players[a] == players[b],
    ensures
        a == b,
{
}

} // verus!
