//! The standings aggregator: win/loss/draw records, points, streaks and
//! ordering, all derived on demand from the matchup ledger and never
//! stored.

use crate::models::matchup::{completed, involves, Matchup};
use crate::models::schedule::ScheduleModel;
use crate::models::team::Team;
use crate::store::{
    matchup_in, schedules_wf, teams_wf, year_ledger_of, year_ledger_prefix, Store, MAX_FIXTURES,
    MAX_SCHEDULES,
};
use vstd::prelude::*;

verus! {

/// `m` is a completed matchup that `t` won: `t`'s own score strictly
/// exceeds the opponent's, reading `t` as the home side first.
pub open spec fn is_win(m: Matchup, t: i32) -> bool {
    completed(m) && ((m.home_team_id == t && m.home_team_score->Some_0 > m.away_team_score->Some_0)
        || (m.away_team_id == t && m.away_team_score->Some_0 > m.home_team_score->Some_0))
}

/// `m` is a completed matchup that `t` lost.
pub open spec fn is_loss(m: Matchup, t: i32) -> bool {
    completed(m) && ((m.home_team_id == t && m.home_team_score->Some_0 < m.away_team_score->Some_0)
        || (m.away_team_id == t && m.away_team_score->Some_0 < m.home_team_score->Some_0))
}

/// `m` is a completed matchup that `t` drew.
pub open spec fn is_draw(m: Matchup, t: i32) -> bool {
    completed(m) && involves(m, t) && m.home_team_score->Some_0 == m.away_team_score->Some_0
}

/// `m` is a completed matchup in which `t` played.
pub open spec fn is_played(m: Matchup, t: i32) -> bool {
    completed(m) && involves(m, t)
}

/// `t`'s own score in `m`; zero when `m` is not a completed matchup of
/// `t`. A team listed on both sides is read as the home side.
pub open spec fn points_for(m: Matchup, t: i32) -> int {
    if is_played(m, t) {
        if m.home_team_id == t {
            m.home_team_score->Some_0 as int
        } else {
            m.away_team_score->Some_0 as int
        }
    } else {
        0
    }
}

/// The opponent's score in `m`; zero when `m` is not a completed matchup
/// of `t`.
pub open spec fn points_against(m: Matchup, t: i32) -> int {
    if is_played(m, t) {
        if m.home_team_id == t {
            m.away_team_score->Some_0 as int
        } else {
            m.home_team_score->Some_0 as int
        }
    } else {
        0
    }
}

/// How many matchups of `ms` the team `t` won.
pub open spec fn count_wins(ms: Seq<Matchup>, t: i32) -> int
    decreases ms.len(),
{
    if ms.len() == 0 {
        0
    } else {
        count_wins(ms.drop_last(), t) + if is_win(ms.last(), t) {
            1int
        } else {
            0int
        }
    }
}

/// How many matchups of `ms` the team `t` lost.
pub open spec fn count_losses(ms: Seq<Matchup>, t: i32) -> int
    decreases ms.len(),
{
    if ms.len() == 0 {
        0
    } else {
        count_losses(ms.drop_last(), t) + if is_loss(ms.last(), t) {
            1int
        } else {
            0int
        }
    }
}

/// How many matchups of `ms` the team `t` drew.
pub open spec fn count_draws(ms: Seq<Matchup>, t: i32) -> int
    decreases ms.len(),
{
    if ms.len() == 0 {
        0
    } else {
        count_draws(ms.drop_last(), t) + if is_draw(ms.last(), t) {
            1int
        } else {
            0int
        }
    }
}

/// How many completed matchups of `ms` the team `t` played.
pub open spec fn count_played(ms: Seq<Matchup>, t: i32) -> int
    decreases ms.len(),
{
    if ms.len() == 0 {
        0
    } else {
        count_played(ms.drop_last(), t) + if is_played(ms.last(), t) {
            1int
        } else {
            0int
        }
    }
}

/// The points `t` scored over `ms`.
pub open spec fn sum_points_for(ms: Seq<Matchup>, t: i32) -> int
    decreases ms.len(),
{
    if ms.len() == 0 {
        0
    } else {
        sum_points_for(ms.drop_last(), t) + points_for(ms.last(), t)
    }
}

/// The points scored against `t` over `ms`.
pub open spec fn sum_points_against(ms: Seq<Matchup>, t: i32) -> int
    decreases ms.len(),
{
    if ms.len() == 0 {
        0
    } else {
        sum_points_against(ms.drop_last(), t) + points_against(ms.last(), t)
    }
}

/// `ms` stably sorted by ascending week number, with `m` inserted after
/// every element of no greater week number.
pub open spec fn insert_by_week(s: Seq<Matchup>, m: Matchup) -> Seq<Matchup>
    decreases s.len(),
{
    if s.len() == 0 {
        seq![m]
    } else if m.wk_no < s.last().wk_no {
        insert_by_week(s.drop_last(), m).push(s.last())
    } else {
        s.push(m)
    }
}

/// Stable insertion sort of `s` by ascending week number.
pub open spec fn sort_by_week(s: Seq<Matchup>) -> Seq<Matchup>
    decreases s.len(),
{
    if s.len() == 0 {
        Seq::empty()
    } else {
        insert_by_week(sort_by_week(s.drop_last()), s.last())
    }
}

/// The count of trailing consecutive wins of `t` in `ms` (most recent
/// last): a loss, a draw, or the start of the history ends the run.
pub open spec fn streak_of(ms: Seq<Matchup>, t: i32) -> int
    decreases ms.len(),
{
    if ms.len() == 0 {
        0
    } else if is_win(ms.last(), t) {
        1 + streak_of(ms.drop_last(), t)
    } else {
        0
    }
}

/// The completed matchups of season `y` involving team `t`, in store
/// order.
pub open spec fn team_history(s: Seq<ScheduleModel>, y: int, t: i32) -> Seq<Matchup> {
    year_ledger_of(s, y).filter(|m: Matchup| involves(m, t) && completed(m))
}

/// The streak the aggregator reports for `t` in season `y`: the trailing
/// win run of `t`'s completed history sorted stably by week.
pub open spec fn streak_spec(s: Seq<ScheduleModel>, y: int, t: i32) -> int {
    streak_of(sort_by_week(team_history(s, y, t)), t)
}

/// One team's derived standing for a season; computed on demand, never
/// stored. The win percentage is carried as the integer `win_percent_milli`
/// (thousandths) so that it stays exact.
#[derive(Debug)]
pub struct Standing {
    pub team_id: i32,
    pub team_name: String,
    pub wins: i32,
    pub losses: i32,
    pub draws: i32,
    pub points_for: i32,
    pub points_against: i32,
    pub streak: i32,
}

/// `(wins + draws / 2) / played`, in thousandths, rounded down; zero when
/// no matchup was played at all (the documented policy for an empty
/// record).
pub open spec fn win_percent_milli_spec(wins: int, draws: int, losses: int) -> int {
    if wins + draws + losses == 0 {
        0
    } else {
        (1000 * wins + 500 * draws) / (wins + draws + losses)
    }
}

impl Standing {
    /// The team's win percentage in thousandths: `1000` for a perfect
    /// record, `0` for a winless one or when nothing was played yet.
    pub fn win_percent_milli(&self) -> (r: i32)
        requires
            self.wins >= 0,
            self.draws >= 0,
            self.losses >= 0,
        ensures
            r as int == win_percent_milli_spec(self.wins as int, self.draws as int, self.losses as int),
    {
        let total: i64 = self.wins as i64 + self.draws as i64 + self.losses as i64;
        if total == 0 {
            0
        } else {
            let num: i64 = 1000 * (self.wins as i64) + 500 * (self.draws as i64);
            let r64: i64 = num / total;
            proof {
                assert(0 <= r64 <= 1000) by (nonlinear_arith)
                    requires
                        r64 == num / total,
                        total > 0,
                        0 <= num <= 1000 * total,
                ;
            }
            r64 as i32
        }
    }
}

impl Standing {
    /// Derive the standings of season `year`, one row per stored team,
    /// ordered by wins minus losses descending; rows with equal keys keep
    /// their store order (ascending team identifier). Everything is
    /// recomputed from the matchup ledger at call time; nothing is cached.
    /// Point totals must fit the record's fields.
    pub fn get(store: &Store, year: &i32) -> (r: Vec<Standing>)
        requires
            store.wf(),
            forall|ti: int|
                0 <= ti < store.teams@.len() ==> {
                    let ms = year_ledger_of(store.sch(), *year as int);
                    let t = (#[trigger] store.teams@[ti]).id;
                    &&& -0x8000_0000 <= sum_points_for(ms, t) < 0x8000_0000
                    &&& -0x8000_0000 <= sum_points_against(ms, t) < 0x8000_0000
                },
        ensures
            r@ == sort_standings(standings_table(store.sch(), store.teams@, *year as int)),
    {
        let ghost y = *year as int;
        let mut table: Vec<Standing> = Vec::new();
        let mut ti: usize = 0;
        while ti < store.teams.len()
            invariant
                store.wf(),
                forall|tj: int|
                    0 <= tj < store.teams@.len() ==> {
                        let ms = year_ledger_of(store.sch(), y);
                        let t = (#[trigger] store.teams@[tj]).id;
                        &&& -0x8000_0000 <= sum_points_for(ms, t) < 0x8000_0000
                        &&& -0x8000_0000 <= sum_points_against(ms, t) < 0x8000_0000
                    },
                y == *year as int,
                ti <= store.teams@.len(),
                table@.len() == ti,
                forall|j: int|
                    0 <= j < ti ==> table@[j] == standing_spec(store.sch(), store.teams@, y, j),
            decreases store.teams@.len() - ti,
        {
            let t: i32 = store.teams[ti].id;
            let mut wins: i32 = 0;
            let mut losses: i32 = 0;
            let mut draws: i32 = 0;
            let mut pf: i64 = 0;
            let mut pa: i64 = 0;
            let mut si: usize = 0;
            while si < store.schedules.len()
                invariant
                    store.wf(),
                    y == *year as int,
                    si <= store.schedules@.len(),
                    ({
                        let s = year_ledger_prefix(store.sch(), y, si as int);
                        &&& wins as int == count_wins(s, t)
                        &&& losses as int == count_losses(s, t)
                        &&& draws as int == count_draws(s, t)
                        &&& pf as int == sum_points_for(s, t)
                        &&& pa as int == sum_points_against(s, t)
                    }),
                decreases store.schedules@.len() - si,
            {
                proof {
                    assert(store.sch()[si as int] == store.schedules@[si as int]@);
                }
                if store.schedules[si].year == *year {
                    let ghost base = year_ledger_prefix(store.sch(), y, si as int);
                    let mut mi: usize = 0;
                    while mi < store.schedules[si].matchups.len()
                        invariant
                            store.wf(),
                            si < store.schedules@.len(),
                            store.sch()[si as int].year == y,
                            base == year_ledger_prefix(store.sch(), y, si as int),
                            mi <= store.sch()[si as int].matchups.len(),
                            ({
                                let s = base + store.sch()[si as int].matchups.subrange(
                                    0,
                                    mi as int,
                                );
                                &&& wins as int == count_wins(s, t)
                                &&& losses as int == count_losses(s, t)
                                &&& draws as int == count_draws(s, t)
                                &&& pf as int == sum_points_for(s, t)
                                &&& pa as int == sum_points_against(s, t)
                            }),
                        decreases store.sch()[si as int].matchups.len() - mi,
                    {
                        let m: Matchup = store.schedules[si].matchups[mi];
                        proof {
                            let part = store.sch()[si as int].matchups.subrange(0, mi as int);
                            assert(base + store.sch()[si as int].matchups.subrange(0, mi + 1) =~= (
                            base + part).push(m));
                            lemma_counts_push(base + part, m, t);
                            lemma_counts_bounded((base + part).push(m), t);
                            lemma_sums_bounded((base + part).push(m), t);
                            crate::store::lemma_year_ledger_len(store.sch(), y, si as int);
                            assert((base + part).push(m).len() <= (si as int) * (
                            MAX_FIXTURES as int) + (MAX_FIXTURES as int));
                            assert((si as int) * (MAX_FIXTURES as int) + (MAX_FIXTURES as int) <= (
                            MAX_SCHEDULES as int) * (MAX_FIXTURES as int)) by (nonlinear_arith)
                                requires
                                    0 <= si < MAX_SCHEDULES,
                            ;
                            assert((base + part).push(m).len() as int * 0x8000_0000 <= 0x4000_0000
                                * 0x8000_0000) by (nonlinear_arith)
                                requires
                                    0 <= (base + part).push(m).len() <= 0x4000_0000,
                            ;
                        }
                        match (m.home_team_score, m.away_team_score) {
                            (Some(hs), Some(aws)) => {
                                if m.home_team_id == t {
                                    pf = pf + hs as i64;
                                    pa = pa + aws as i64;
                                } else if m.away_team_id == t {
                                    pf = pf + aws as i64;
                                    pa = pa + hs as i64;
                                }
                                if (m.home_team_id == t && hs > aws) || (m.away_team_id == t && aws
                                    > hs) {
                                    wins = wins + 1;
                                }
                                if (m.home_team_id == t && hs < aws) || (m.away_team_id == t && aws
                                    < hs) {
                                    losses = losses + 1;
                                }
                                if (m.home_team_id == t || m.away_team_id == t) && hs == aws {
                                    draws = draws + 1;
                                }
                            }
                            _ => {}
                        }
                        mi = mi + 1;
                    }
                    proof {
                        assert(year_ledger_prefix(store.sch(), y, si + 1) =~= base
                            + store.sch()[si as int].matchups.subrange(
                            0,
                            store.sch()[si as int].matchups.len() as int,
                        ));
                    }
                } else {
                    proof {
                        assert(year_ledger_prefix(store.sch(), y, si + 1) =~= year_ledger_prefix(
                            store.sch(),
                            y,
                            si as int,
                        ) + Seq::<Matchup>::empty());
                        lemma_counts_push_empty(year_ledger_prefix(store.sch(), y, si as int), t);
                    }
                }
                si = si + 1;
            }
            let stk: i32 = store.teams[ti].get_streak(store, year);
            let name: String = store.teams[ti].name.clone();
            let row = Standing {
                team_id: t,
                team_name: name,
                wins,
                losses,
                draws,
                points_for: pf as i32,
                points_against: pa as i32,
                streak: stk,
            };
            proof {
                lemma_counts_bounded(year_ledger_of(store.sch(), y), t);
                crate::store::lemma_year_ledger_len(store.sch(), y, store.sch().len() as int);
                assert(row == standing_spec(store.sch(), store.teams@, y, ti as int));
            }
            table.push(row);
            ti = ti + 1;
        }
        proof {
            assert(table@ =~= standings_table(store.sch(), store.teams@, y));
        }

        // Order the rows: wins minus losses, descending, stably.
        let mut sorted: Vec<Standing> = Vec::new();
        let mut k: usize = 0;
        while k < table.len()
            invariant
                k <= table@.len(),
                sorted@.len() == k,
                sorted@ == sort_standings(table@.subrange(0, k as int)),
            decreases table@.len() - k,
        {
            let x: Standing = table[k].clone();
            let xkey: i64 = x.wins as i64 - x.losses as i64;
            let mut j: usize = sorted.len();
            while j > 0 && xkey > sorted[j - 1].wins as i64 - sorted[j - 1].losses as i64
                invariant
                    j <= sorted@.len(),
                    xkey == standing_key(x),
                    forall|idx: int|
                        j <= idx < sorted@.len() ==> standing_key(x) > standing_key(
                            #[trigger] sorted@[idx],
                        ),
                decreases j,
            {
                j = j - 1;
            }
            proof {
                lemma_insert_standing_at(sorted@, x, j as int);
                assert(table@.subrange(0, k + 1).drop_last() =~= table@.subrange(0, k as int));
                assert(table@.subrange(0, k + 1).last() == table@[k as int]);
            }
            sorted.insert(j, x);
            k = k + 1;
        }
        proof {
            assert(table@.subrange(0, table@.len() as int) =~= table@);
        }
        sorted
    }
}

/// Totals are untouched by an empty extension.
proof fn lemma_counts_push_empty(ms: Seq<Matchup>, t: i32)
    ensures
        count_wins(ms + Seq::<Matchup>::empty(), t) == count_wins(ms, t),
        count_losses(ms + Seq::<Matchup>::empty(), t) == count_losses(ms, t),
        count_draws(ms + Seq::<Matchup>::empty(), t) == count_draws(ms, t),
        sum_points_for(ms + Seq::<Matchup>::empty(), t) == sum_points_for(ms, t),
        sum_points_against(ms + Seq::<Matchup>::empty(), t) == sum_points_against(ms, t),
{
    assert(ms + Seq::<Matchup>::empty() =~= ms);
}

/// The standing the aggregator derives for the team at index `ti`.
pub open spec fn standing_spec(s: Seq<ScheduleModel>, teams: Seq<Team>, y: int, ti: int) -> Standing {
    let t = teams[ti];
    let ms = year_ledger_of(s, y);
    Standing {
        team_id: t.id,
        team_name: t.name,
        wins: count_wins(ms, t.id) as i32,
        losses: count_losses(ms, t.id) as i32,
        draws: count_draws(ms, t.id) as i32,
        points_for: sum_points_for(ms, t.id) as i32,
        points_against: sum_points_against(ms, t.id) as i32,
        streak: streak_spec(s, y, t.id) as i32,
    }
}

/// The per-team standings in store order, before sorting.
pub open spec fn standings_table(s: Seq<ScheduleModel>, teams: Seq<Team>, y: int) -> Seq<Standing> {
    teams.map(|i: int, t: Team| standing_spec(s, teams, y, i))
}

/// The ordering key of the standings: wins minus losses, descending.
pub open spec fn standing_key(st: Standing) -> int {
    st.wins - st.losses
}

/// The standings `s`, sorted descending by key, with `x` inserted after
/// every element of no smaller key.
pub open spec fn insert_standing(s: Seq<Standing>, x: Standing) -> Seq<Standing>
    decreases s.len(),
{
    if s.len() == 0 {
        seq![x]
    } else if standing_key(x) > standing_key(s.last()) {
        insert_standing(s.drop_last(), x).push(s.last())
    } else {
        s.push(x)
    }
}

/// Stable insertion sort of the standings, descending by key: rows with
/// equal keys keep their store order (ascending team identifier).
pub open spec fn sort_standings(s: Seq<Standing>) -> Seq<Standing>
    decreases s.len(),
{
    if s.len() == 0 {
        Seq::empty()
    } else {
        insert_standing(sort_standings(s.drop_last()), s.last())
    }
}

impl Clone for Standing {
    fn clone(&self) -> (r: Self)
        ensures
            r == *self,
    {
        Standing {
            team_id: self.team_id,
            team_name: self.team_name.clone(),
            wins: self.wins,
            losses: self.losses,
            draws: self.draws,
            points_for: self.points_for,
            points_against: self.points_against,
            streak: self.streak,
        }
    }
}

/// Where the week-sort insertion lands: past the scanned strictly-later
/// suffix, the spec insertion is a plain `Seq::insert`.
pub proof fn lemma_insert_by_week_at(s: Seq<Matchup>, m: Matchup, j: int)
    requires
        0 <= j <= s.len(),
        forall|k: int| j <= k < s.len() ==> (#[trigger] s[k]).wk_no > m.wk_no,
        j > 0 ==> s[j - 1].wk_no <= m.wk_no,
    ensures
        insert_by_week(s, m) == s.insert(j, m),
    decreases s.len(),
{
    if j == s.len() {
        if s.len() == 0 {
            assert(insert_by_week(s, m) =~= s.insert(j, m));
        } else {
            assert(!(m.wk_no < s.last().wk_no));
            assert(s.push(m) =~= s.insert(j, m));
        }
    } else {
        assert(s[s.len() - 1].wk_no > m.wk_no);
        lemma_insert_by_week_at(s.drop_last(), m, j);
        assert(insert_by_week(s, m) == s.drop_last().insert(j, m).push(s.last()));
        assert(s.drop_last().insert(j, m).push(s.last()) =~= s.insert(j, m));
    }
}

/// Where the standings insertion lands: past the scanned
/// strictly-smaller-keyed suffix, the spec insertion is a plain
/// `Seq::insert`.
pub proof fn lemma_insert_standing_at(s: Seq<Standing>, x: Standing, j: int)
    requires
        0 <= j <= s.len(),
        forall|k: int| j <= k < s.len() ==> standing_key(x) > standing_key(#[trigger] s[k]),
        j > 0 ==> standing_key(x) <= standing_key(s[j - 1]),
    ensures
        insert_standing(s, x) == s.insert(j, x),
    decreases s.len(),
{
    if j == s.len() {
        if s.len() == 0 {
            assert(insert_standing(s, x) =~= s.insert(j, x));
        } else {
            assert(!(standing_key(x) > standing_key(s.last())));
            assert(s.push(x) =~= s.insert(j, x));
        }
    } else {
        assert(standing_key(x) > standing_key(s[s.len() - 1]));
        lemma_insert_standing_at(s.drop_last(), x, j);
        assert(insert_standing(s, x) == s.drop_last().insert(j, x).push(s.last()));
        assert(s.drop_last().insert(j, x).push(s.last()) =~= s.insert(j, x));
    }
}

/// Appending one matchup moves every running total by that matchup's
/// contribution.
pub proof fn lemma_counts_push(ms: Seq<Matchup>, m: Matchup, t: i32)
    ensures
        count_wins(ms.push(m), t) == count_wins(ms, t) + if is_win(m, t) {
            1int
        } else {
            0int
        },
        count_losses(ms.push(m), t) == count_losses(ms, t) + if is_loss(m, t) {
            1int
        } else {
            0int
        },
        count_draws(ms.push(m), t) == count_draws(ms, t) + if is_draw(m, t) {
            1int
        } else {
            0int
        },
        count_played(ms.push(m), t) == count_played(ms, t) + if is_played(m, t) {
            1int
        } else {
            0int
        },
        sum_points_for(ms.push(m), t) == sum_points_for(ms, t) + points_for(m, t),
        sum_points_against(ms.push(m), t) == sum_points_against(ms, t) + points_against(m, t),
{
    assert(ms.push(m).drop_last() =~= ms);
    assert(ms.push(m).last() == m);
}

/// Every count stays within the length of the history it counts.
pub proof fn lemma_counts_bounded(ms: Seq<Matchup>, t: i32)
    ensures
        0 <= count_wins(ms, t) <= ms.len(),
        0 <= count_losses(ms, t) <= ms.len(),
        0 <= count_draws(ms, t) <= ms.len(),
        0 <= count_played(ms, t) <= ms.len(),
        0 <= streak_of(ms, t) <= ms.len(),
    decreases ms.len(),
{
    if ms.len() > 0 {
        lemma_counts_bounded(ms.drop_last(), t);
    }
}

/// Point totals stay within one score's magnitude per matchup.
pub proof fn lemma_sums_bounded(ms: Seq<Matchup>, t: i32)
    ensures
        -(ms.len() as int) * 0x8000_0000 <= sum_points_for(ms, t) <= (ms.len() as int)
            * 0x8000_0000,
        -(ms.len() as int) * 0x8000_0000 <= sum_points_against(ms, t) <= (ms.len() as int)
            * 0x8000_0000,
    decreases ms.len(),
{
    if ms.len() > 0 {
        lemma_sums_bounded(ms.drop_last(), t);
        let l = ms.len() as int;
        assert((l - 1) * 0x8000_0000 + 0x8000_0000 == l * 0x8000_0000) by (nonlinear_arith);
    }
}

/// Inserting one row into the ordered standings keeps the multiset of rows.
proof fn lemma_insert_standing_multiset(s: Seq<Standing>, x: Standing)
    ensures
        insert_standing(s, x).to_multiset() == s.to_multiset().insert(x),
    decreases s.len(),
{
    broadcast use vstd::seq_lib::group_to_multiset_ensures;

    if s.len() == 0 {
        assert(s =~= Seq::<Standing>::empty());
        assert(insert_standing(s, x) =~= Seq::<Standing>::empty().push(x));
    } else if standing_key(x) > standing_key(s.last()) {
        let d = s.drop_last();
        lemma_insert_standing_multiset(d, x);
        assert(d.push(s.last()) =~= s);
        assert(d.to_multiset().insert(x).insert(s.last()) =~= d.to_multiset().insert(
            s.last(),
        ).insert(x));
    }
}

/// Law: the ordered standings are a permutation of the per-team table --
/// sorting reorders rows and never adds, drops or alters one. Together
/// with `lemma_record_totals` and `lemma_points_symmetry`, the totals that
/// hold of the table row per row therefore hold of exactly the rows
/// `Standing::get` returns.
pub proof fn lemma_sort_standings_permutes(s: Seq<Standing>)
    ensures
        sort_standings(s).to_multiset() == s.to_multiset(),
    decreases s.len(),
{
    broadcast use vstd::seq_lib::group_to_multiset_ensures;

    if s.len() > 0 {
        let d = s.drop_last();
        lemma_sort_standings_permutes(d);
        lemma_insert_standing_multiset(sort_standings(d), s.last());
        assert(d.push(s.last()) =~= s);
    }
}

/// Law: for every team, wins plus losses plus draws equals the count of
/// that team's completed matchups, over any history in which no matchup
/// lists the same team on both sides. (A matchup listing one team as both
/// home and away would be tallied as both a win and a loss whenever its
/// scores differ, so such degenerate records are excluded.)
pub proof fn lemma_record_totals(ms: Seq<Matchup>, t: i32)
    requires
        forall|i: int|
            0 <= i < ms.len() ==> (#[trigger] ms[i]).home_team_id != ms[i].away_team_id,
    ensures
        count_wins(ms, t) + count_losses(ms, t) + count_draws(ms, t) == count_played(ms, t),
    decreases ms.len(),
{
    if ms.len() > 0 {
        assert forall|i: int|
            0 <= i < ms.drop_last().len() implies (#[trigger] ms.drop_last()[i]).home_team_id
            != ms.drop_last()[i].away_team_id by {
            assert(ms.drop_last()[i] == ms[i]);
        }
        lemma_record_totals(ms.drop_last(), t);
        assert(ms[ms.len() - 1] == ms.last());
    }
}

/// The points `teams` scored over `ms`, summed over every team.
pub open spec fn total_points_for(ms: Seq<Matchup>, teams: Seq<Team>) -> int
    decreases teams.len(),
{
    if teams.len() == 0 {
        0
    } else {
        total_points_for(ms, teams.drop_last()) + sum_points_for(ms, teams.last().id)
    }
}

/// The points scored against `teams` over `ms`, summed over every team.
pub open spec fn total_points_against(ms: Seq<Matchup>, teams: Seq<Team>) -> int
    decreases teams.len(),
{
    if teams.len() == 0 {
        0
    } else {
        total_points_against(ms, teams.drop_last()) + sum_points_against(ms, teams.last().id)
    }
}

/// One matchup's scored points, summed over every team.
spec fn single_pf_total(m: Matchup, teams: Seq<Team>) -> int
    decreases teams.len(),
{
    if teams.len() == 0 {
        0
    } else {
        single_pf_total(m, teams.drop_last()) + points_for(m, teams.last().id)
    }
}

/// One matchup's conceded points, summed over every team.
spec fn single_pa_total(m: Matchup, teams: Seq<Team>) -> int
    decreases teams.len(),
{
    if teams.len() == 0 {
        0
    } else {
        single_pa_total(m, teams.drop_last()) + points_against(m, teams.last().id)
    }
}

/// An empty history scores no points for anyone.
proof fn lemma_total_points_empty(teams: Seq<Team>)
    ensures
        total_points_for(Seq::<Matchup>::empty(), teams) == 0,
        total_points_against(Seq::<Matchup>::empty(), teams) == 0,
    decreases teams.len(),
{
    if teams.len() > 0 {
        lemma_total_points_empty(teams.drop_last());
    }
}

/// Appending one matchup adds exactly its own point sums to the totals.
proof fn lemma_total_points_push(ms: Seq<Matchup>, m: Matchup, teams: Seq<Team>)
    ensures
        total_points_for(ms.push(m), teams) == total_points_for(ms, teams) + single_pf_total(
            m,
            teams,
        ),
        total_points_against(ms.push(m), teams) == total_points_against(ms, teams)
            + single_pa_total(m, teams),
    decreases teams.len(),
{
    if teams.len() > 0 {
        lemma_total_points_push(ms, m, teams.drop_last());
        lemma_counts_push(ms, m, teams.last().id);
    }
}

/// With dense team identifiers, one matchup's point sums over all teams
/// are its home and away scores, each counted for its side when that side
/// resolves (and only once when both sides name the same team).
proof fn lemma_single_totals(m: Matchup, teams: Seq<Team>)
    requires
        forall|i: int| 0 <= i < teams.len() ==> (#[trigger] teams[i]).id == i + 1,
    ensures
        single_pf_total(m, teams) == (if completed(m) && 1 <= m.home_team_id <= teams.len() {
            m.home_team_score->Some_0 as int
        } else {
            0
        }) + (if completed(m) && m.away_team_id != m.home_team_id && 1 <= m.away_team_id
            <= teams.len() {
            m.away_team_score->Some_0 as int
        } else {
            0
        }),
        single_pa_total(m, teams) == (if completed(m) && 1 <= m.home_team_id <= teams.len() {
            m.away_team_score->Some_0 as int
        } else {
            0
        }) + (if completed(m) && m.away_team_id != m.home_team_id && 1 <= m.away_team_id
            <= teams.len() {
            m.home_team_score->Some_0 as int
        } else {
            0
        }),
    decreases teams.len(),
{
    if teams.len() > 0 {
        assert forall|i: int|
            0 <= i < teams.drop_last().len() implies (#[trigger] teams.drop_last()[i]).id == i
            + 1 by {
            assert(teams.drop_last()[i] == teams[i]);
        }
        lemma_single_totals(m, teams.drop_last());
        assert(teams[teams.len() - 1] == teams.last());
    }
}

/// Law: points are symmetric across the ledger. Over any history whose
/// completed matchups reference two distinct, existing teams, the sum of
/// `points_for` over all teams equals the sum of `points_against` over all
/// teams: every point scored by one side is conceded by the other.
pub proof fn lemma_points_symmetry(ms: Seq<Matchup>, teams: Seq<Team>)
    requires
        teams_wf(teams),
        forall|i: int|
            0 <= i < ms.len() ==> (completed(#[trigger] ms[i]) ==> 1 <= ms[i].home_team_id
                <= teams.len() && 1 <= ms[i].away_team_id <= teams.len() && ms[i].home_team_id
                != ms[i].away_team_id),
    ensures
        total_points_for(ms, teams) == total_points_against(ms, teams),
    decreases ms.len(),
{
    if ms.len() == 0 {
        assert(ms =~= Seq::<Matchup>::empty());
        lemma_total_points_empty(teams);
    } else {
        let last = ms.last();
        assert forall|i: int|
            0 <= i < ms.drop_last().len() implies (!completed(#[trigger] ms.drop_last()[i]) || (1
            <= ms.drop_last()[i].home_team_id <= teams.len() && 1
            <= ms.drop_last()[i].away_team_id <= teams.len() && ms.drop_last()[i].home_team_id
            != ms.drop_last()[i].away_team_id)) by {
            assert(ms.drop_last()[i] == ms[i]);
        }
        lemma_points_symmetry(ms.drop_last(), teams);
        assert(ms.drop_last().push(last) =~= ms);
        lemma_total_points_push(ms.drop_last(), last, teams);
        lemma_single_totals(last, teams);
        assert(ms[ms.len() - 1] == last);
    }
}

} // verus!
