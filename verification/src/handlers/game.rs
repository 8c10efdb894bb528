//! The game handlers: season restart and the week-advancement state
//! machine over the singleton GameState record.

use crate::conf::{LeagueConfig, LeagueConfigItem, TeamConfig, TeamConfigItem, TierConfigItem};
use crate::models::game::GameState;
use crate::models::league::{tiers_of, League};
use crate::models::matchup::{completed, max_zero, rescored, Matchup};
use crate::models::schedule::{
    rr_fixture, rr_matchup_count, valid_team_count, Schedule, ScheduleModel,
};
use crate::models::team::{division_roster_of, Team};
use crate::models::tier::Tier;
use crate::shared::rng::random_in_range;
use crate::store::{
    lemma_filter_count_block, matchup_in, schedules_wf, year_ledger_of, year_ledger_prefix, Store,
    MAX_FIXTURES,
};
use crate::Error;
use vstd::arithmetic::div_mod::{
    lemma_fundamental_div_mod, lemma_fundamental_div_mod_converse,
    lemma_mod_division_less_than_divisor,
};
use vstd::prelude::*;
use vstd::string::StringExecFns;

verus! {

/// Entry points for restarting the season and advancing the week.
pub struct GameHandlers;

/// The highest week number among `ms`; zero when there is none.
pub open spec fn max_week(ms: Seq<Matchup>) -> int
    decreases ms.len(),
{
    if ms.len() == 0 {
        0
    } else {
        let rest = max_week(ms.drop_last());
        if ms.last().wk_no > rest {
            ms.last().wk_no as int
        } else {
            rest
        }
    }
}

/// `m1` is a simulated result of the fixture `m0` between teams of `teams`:
/// the same fixture, now completed, each side's score within the range the
/// simulator can produce from that side's skill.
pub open spec fn simulated_version(teams: Seq<Team>, m0: Matchup, m1: Matchup) -> bool {
    &&& 1 <= m0.home_team_id <= teams.len()
    &&& 1 <= m0.away_team_id <= teams.len()
    &&& m1.id == m0.id
    &&& m1.wk_no == m0.wk_no
    &&& m1.home_team_id == m0.home_team_id
    &&& m1.away_team_id == m0.away_team_id
    &&& m1.home_team_score is Some
    &&& m1.away_team_score is Some
    &&& ({
        let hskill = teams[m0.home_team_id - 1].skill as int;
        max_zero(hskill - 2) <= m1.home_team_score->Some_0 <= hskill + 4
    })
    &&& ({
        let askill = teams[m0.away_team_id - 1].skill as int;
        max_zero(askill - 2) <= m1.away_team_score->Some_0 <= askill + 4
    })
}

/// The fixture at `(a, b)` is due in week `wk` of season `y`: scheduled for
/// that week, in that season, and not yet played.
pub open spec fn due_fixture(s0: Seq<ScheduleModel>, y: int, wk: int, a: int, b: int) -> bool {
    &&& s0[a].year == y
    &&& matchup_in(s0, a, b).wk_no == wk
    &&& !completed(matchup_in(s0, a, b))
}

/// `s1` is `s0` with the fixtures strictly before the cursor `(a_cut,
/// b_cut)` processed for week `wk` of season `y`: every due fixture before
/// the cursor has been simulated, and every other fixture is untouched.
pub open spec fn advance_state(
    teams: Seq<Team>,
    s0: Seq<ScheduleModel>,
    s1: Seq<ScheduleModel>,
    y: int,
    wk: int,
    a_cut: int,
    b_cut: int,
) -> bool {
    &&& s1.len() == s0.len()
    &&& (forall|a: int|
        0 <= a < s0.len() ==> {
            let sm1 = #[trigger] s1[a];
            &&& sm1.id == s0[a].id
            &&& sm1.year == s0[a].year
            &&& sm1.tier_id == s0[a].tier_id
            &&& sm1.league_id == s0[a].league_id
            &&& sm1.matchups.len() == s0[a].matchups.len()
        })
    &&& (forall|a: int, b: int|
        0 <= a < s0.len() && 0 <= b < s0[a].matchups.len() ==> {
            let m0 = matchup_in(s0, a, b);
            let m1 = #[trigger] matchup_in(s1, a, b);
            if (a < a_cut || (a == a_cut && b < b_cut)) && due_fixture(s0, y, wk, a, b) {
                simulated_version(teams, m0, m1)
            } else {
                m1 == m0
            }
        })
}

/// `s1` is `s0` with every fixture due in week `wk` of season `y`
/// simulated and everything else untouched.
pub open spec fn week_advanced(
    teams: Seq<Team>,
    s0: Seq<ScheduleModel>,
    s1: Seq<ScheduleModel>,
    y: int,
    wk: int,
) -> bool {
    advance_state(teams, s0, s1, y, wk, s0.len() as int, 0)
}

/// Law: advancing a week completes it. Once `week_advanced` holds -- as
/// `next_week` ensures for the current week whenever the season is not
/// already over -- every fixture of that week in that season has both
/// scores set: the ones that were due were simulated, and the ones already
/// played kept their results. In particular, advancing the final scheduled
/// week leaves no fixture of the season's last round unplayed.
pub proof fn lemma_week_advanced_completes(
    teams: Seq<Team>,
    s0: Seq<ScheduleModel>,
    s1: Seq<ScheduleModel>,
    y: int,
    wk: int,
)
    requires
        week_advanced(teams, s0, s1, y, wk),
    ensures
        forall|a: int, b: int|
            0 <= a < s0.len() && 0 <= b < s0[a].matchups.len() && s0[a].year == y && matchup_in(
                s0,
                a,
                b,
            ).wk_no == wk ==> completed(#[trigger] matchup_in(s1, a, b)),
{
    assert forall|a: int, b: int|
        0 <= a < s0.len() && 0 <= b < s0[a].matchups.len() && s0[a].year == y && matchup_in(
            s0,
            a,
            b,
        ).wk_no == wk implies completed(#[trigger] matchup_in(s1, a, b)) by {
        if due_fixture(s0, y, wk, a, b) {
            assert(simulated_version(teams, matchup_in(s0, a, b), matchup_in(s1, a, b)));
        } else {
            assert(completed(matchup_in(s0, a, b)));
            assert(matchup_in(s1, a, b) == matchup_in(s0, a, b));
        }
    }
}

/// Pushing a matchup moves the running maximum up to its week number.
proof fn lemma_max_week_push(ms: Seq<Matchup>, x: Matchup)
    ensures
        max_week(ms.push(x)) == if x.wk_no > max_week(ms) {
            x.wk_no as int
        } else {
            max_week(ms)
        },
{
    assert(ms.push(x).drop_last() =~= ms);
    assert(ms.push(x).last() == x);
}

/// The maximum week is never negative.
proof fn lemma_max_week_nonneg(ms: Seq<Matchup>)
    ensures
        max_week(ms) >= 0,
    decreases ms.len(),
{
    if ms.len() > 0 {
        lemma_max_week_nonneg(ms.drop_last());
    }
}

/// The maximum week of a concatenation is the larger of the two maxima.
proof fn lemma_max_week_concat(a: Seq<Matchup>, b: Seq<Matchup>)
    ensures
        max_week(a + b) == if max_week(b) > max_week(a) {
            max_week(b)
        } else {
            max_week(a)
        },
    decreases b.len(),
{
    lemma_max_week_nonneg(a);
    if b.len() == 0 {
        assert(a + b =~= a);
    } else {
        assert(a + b.drop_last() =~= (a + b).drop_last());
        lemma_max_week_concat(a, b.drop_last());
        assert((a + b).last() == b.last());
    }
}

/// All week numbers bounded gives a bounded maximum.
proof fn lemma_max_week_le(ms: Seq<Matchup>, bound: int)
    requires
        forall|b: int| 0 <= b < ms.len() ==> (#[trigger] ms[b]).wk_no <= bound,
        bound >= 0,
    ensures
        0 <= max_week(ms) <= bound,
    decreases ms.len(),
{
    if ms.len() > 0 {
        lemma_max_week_le(ms.drop_last(), bound);
    }
}

/// In a well-formed store every week number of a season's ledger, and so
/// the season's final week, stays within the invariant's bound.
proof fn lemma_year_ledger_max_bound(s: Seq<ScheduleModel>, y: int, si: int)
    requires
        schedules_wf(s),
        0 <= si <= s.len(),
    ensures
        0 <= max_week(year_ledger_prefix(s, y, si)) <= 0x4000_0000,
    decreases si,
{
    if si == 0 {
    } else {
        lemma_year_ledger_max_bound(s, y, si - 1);
        if s[si - 1].year == y {
            assert forall|b: int|
                0 <= b < s[si - 1].matchups.len() implies (#[trigger] s[si - 1].matchups[b]).wk_no
                <= 0x4000_0000 by {
                assert(matchup_in(s, si - 1, b) == s[si - 1].matchups[b]);
            }
            lemma_max_week_le(s[si - 1].matchups, 0x4000_0000);
            lemma_max_week_concat(year_ledger_prefix(s, y, si - 1), s[si - 1].matchups);
        } else {
            assert(year_ledger_prefix(s, y, si) =~= year_ledger_prefix(s, y, si - 1)
                + Seq::<Matchup>::empty());
            lemma_max_week_concat(year_ledger_prefix(s, y, si - 1), Seq::<Matchup>::empty());
        }
    }
}

/// `id` is the identifier of the first league of `leagues` called `name`.
pub open spec fn resolves_league(leagues: Seq<League>, name: Seq<char>, id: i32) -> bool {
    exists|li: int|
        {
            &&& 0 <= li < leagues.len()
            &&& (#[trigger] leagues[li]).name@ == name
            &&& id == li + 1
            &&& (forall|x: int| 0 <= x < li ==> (#[trigger] leagues[x]).name@ != name)
        }
}

/// `id` is the identifier of the first tier of `tiers` called `name` that
/// belongs to league `league_id`.
pub open spec fn resolves_tier(tiers: Seq<Tier>, name: Seq<char>, league_id: i32, id: i32) -> bool {
    exists|ti: int|
        {
            &&& 0 <= ti < tiers.len()
            &&& (#[trigger] tiers[ti]).name@ == name
            &&& tiers[ti].league_id == league_id
            &&& id == ti + 1
            &&& (forall|x: int|
                0 <= x < ti ==> !((#[trigger] tiers[x]).name@ == name && tiers[x].league_id
                    == league_id))
        }
}

/// `tier_id` is what the pair of display names resolves to: the first
/// league called `league_name`, then that league's first tier called
/// `tier_name`.
pub open spec fn team_resolution(
    leagues: Seq<League>,
    tiers: Seq<Tier>,
    league_name: Seq<char>,
    tier_name: Seq<char>,
    tier_id: i32,
) -> bool {
    exists|lid: i32|
        #[trigger] resolves_league(leagues, league_name, lid) && resolves_tier(
            tiers,
            tier_name,
            lid,
            tier_id,
        )
}

/// The tiers of the first `li` leagues, league by league in store order:
/// the order in which divisions are scheduled.
pub open spec fn tiers_by_league_prefix(tiers: Seq<Tier>, li: int) -> Seq<Tier>
    decreases li,
{
    if li <= 0 {
        Seq::empty()
    } else {
        tiers_by_league_prefix(tiers, li - 1) + tiers.filter(
            |t: Tier| t.league_id == li as i32,
        )
    }
}

/// A league configuration on which a fresh bootstrap with a synthesized
/// roster is guaranteed to succeed: bounded, with pairwise distinct league
/// names, every tier owned by a configured league, and no two tiers of one
/// league sharing a name.
pub open spec fn bootstrap_config_ok(
    leagues: Seq<LeagueConfigItem>,
    tiers: Seq<TierConfigItem>,
) -> bool {
    &&& leagues.len() <= 0x1000
    &&& tiers.len() <= 0x1000
    &&& (forall|i: int, j: int|
        0 <= i < j < leagues.len() ==> (#[trigger] leagues[i]).name@ != (
        #[trigger] leagues[j]).name@)
    &&& (forall|i: int|
        0 <= i < tiers.len() ==> exists|c: int|
            0 <= c < leagues.len() && (#[trigger] tiers[i]).league@ == (
            #[trigger] leagues[c]).name@)
    &&& (forall|i: int, j: int|
        0 <= i < j < tiers.len() && (#[trigger] tiers[i]).league@ == (
        #[trigger] tiers[j]).league@ ==> tiers[i].name@ != tiers[j].name@)
}

/// How many tiers belong to league `lid`.
spec fn count_league_eq(tiers: Seq<Tier>, lid: i32) -> int
    decreases tiers.len(),
{
    if tiers.len() == 0 {
        0
    } else {
        count_league_eq(tiers.drop_last(), lid) + if tiers.last().league_id == lid {
            1int
        } else {
            0int
        }
    }
}

/// How many tiers belong to any of the leagues `1..=li`.
spec fn count_league_le(tiers: Seq<Tier>, li: int) -> int
    decreases tiers.len(),
{
    if tiers.len() == 0 {
        0
    } else {
        count_league_le(tiers.drop_last(), li) + if 1 <= tiers.last().league_id <= li {
            1int
        } else {
            0int
        }
    }
}

/// One league's tier filter is exactly as long as its tier count.
proof fn lemma_filter_league_len(tiers: Seq<Tier>, lid: i32)
    ensures
        tiers.filter(|t: Tier| t.league_id == lid).len() == count_league_eq(tiers, lid),
    decreases tiers.len(),
{
    reveal(Seq::filter);
    if tiers.len() > 0 {
        lemma_filter_league_len(tiers.drop_last(), lid);
    }
}

/// Counting tiers of leagues `1..=li` splits at league `li`.
proof fn lemma_count_league_split(tiers: Seq<Tier>, li: int)
    requires
        1 <= li < 0x8000_0000,
    ensures
        count_league_le(tiers, li) == count_league_le(tiers, li - 1) + count_league_eq(
            tiers,
            li as i32,
        ),
    decreases tiers.len(),
{
    if tiers.len() > 0 {
        lemma_count_league_split(tiers.drop_last(), li);
    }
}

/// A tier count never exceeds the number of tiers, and no tier belongs to
/// a league numbered zero or less.
proof fn lemma_count_league_bound(tiers: Seq<Tier>, li: int)
    ensures
        0 <= count_league_le(tiers, li) <= tiers.len(),
        li <= 0 ==> count_league_le(tiers, li) == 0,
    decreases tiers.len(),
{
    if tiers.len() > 0 {
        lemma_count_league_bound(tiers.drop_last(), li);
    }
}

/// The division order is exactly as long as the number of tiers owned by
/// the first `li` leagues -- in particular it never exceeds the number of
/// tiers.
proof fn lemma_prefix_len_exact(tiers: Seq<Tier>, li: int)
    requires
        0 <= li < 0x8000_0000,
    ensures
        tiers_by_league_prefix(tiers, li).len() == count_league_le(tiers, li),
        tiers_by_league_prefix(tiers, li).len() <= tiers.len(),
    decreases li,
{
    if li == 0 {
        lemma_count_league_bound(tiers, li);
    } else {
        lemma_prefix_len_exact(tiers, li - 1);
        lemma_filter_league_len(tiers, li as i32);
        lemma_count_league_split(tiers, li);
        lemma_count_league_bound(tiers, li);
    }
}

/// A shorter division order is a prefix of a longer one.
proof fn lemma_prefix_extends(tiers: Seq<Tier>, l1: int, l2: int)
    requires
        0 <= l1 <= l2,
    ensures
        tiers_by_league_prefix(tiers, l1).len() <= tiers_by_league_prefix(tiers, l2).len(),
        forall|k: int|
            0 <= k < tiers_by_league_prefix(tiers, l1).len() ==> #[trigger] tiers_by_league_prefix(
                tiers,
                l2,
            )[k] == tiers_by_league_prefix(tiers, l1)[k],
    decreases l2 - l1,
{
    if l1 < l2 {
        lemma_prefix_extends(tiers, l1, l2 - 1);
    }
}

/// Filtering a dense-identifier tier list keeps identifiers distinct.
proof fn lemma_filter_tiers_distinct(tiers: Seq<Tier>, pred: spec_fn(Tier) -> bool)
    requires
        forall|i: int| 0 <= i < tiers.len() ==> (#[trigger] tiers[i]).id == i + 1,
    ensures
        forall|k1: int, k2: int|
            0 <= k1 < k2 < tiers.filter(pred).len() ==> (#[trigger] tiers.filter(pred)[k1]).id != (
            #[trigger] tiers.filter(pred)[k2]).id,
    decreases tiers.len(),
{
    reveal(Seq::filter);
    if tiers.len() > 0 {
        let d = tiers.drop_last();
        assert forall|i: int| 0 <= i < d.len() implies (#[trigger] d[i]).id == i + 1 by {
            assert(d[i] == tiers[i]);
        }
        lemma_filter_tiers_distinct(d, pred);
        let f = tiers.filter(pred);
        let fd = d.filter(pred);
        assert forall|k1: int, k2: int|
            0 <= k1 < k2 < f.len() implies (#[trigger] f[k1]).id != (#[trigger] f[k2]).id by {
            if k2 < fd.len() {
                assert(f[k1] == fd[k1] && f[k2] == fd[k2]);
            } else {
                assert(pred(tiers.last()) && f[k2] == tiers.last());
                assert(f[k1] == fd[k1]);
                crate::store::lemma_filter_mem(d, pred, k1);
                let i = choose|i: int| 0 <= i < d.len() && #[trigger] d[i] == fd[k1];
                assert(fd[k1].id == i + 1 < tiers.len() + 1);
            }
        }
    }
}

/// Every entry of the division order is a stored tier of one of the first
/// `li` leagues, and no two entries share an identifier.
proof fn lemma_prefix_props(tiers: Seq<Tier>, li: int)
    requires
        0 <= li < 0x8000_0000,
        forall|i: int| 0 <= i < tiers.len() ==> (#[trigger] tiers[i]).id == i + 1,
    ensures
        forall|k: int|
            0 <= k < tiers_by_league_prefix(tiers, li).len() ==> {
                let e = #[trigger] tiers_by_league_prefix(tiers, li)[k];
                &&& 1 <= e.league_id <= li
                &&& 1 <= e.id <= tiers.len()
                &&& tiers[e.id - 1] == e
            },
        forall|k1: int, k2: int|
            0 <= k1 < k2 < tiers_by_league_prefix(tiers, li).len()
                ==> (#[trigger] tiers_by_league_prefix(tiers, li)[k1]).id != (
            #[trigger] tiers_by_league_prefix(tiers, li)[k2]).id,
    decreases li,
{
    if li > 0 {
        lemma_prefix_props(tiers, li - 1);
        let pred = |t: Tier| t.league_id == li as i32;
        let base = tiers_by_league_prefix(tiers, li - 1);
        let part = tiers.filter(pred);
        let whole = tiers_by_league_prefix(tiers, li);
        lemma_filter_tiers_distinct(tiers, pred);
        assert forall|k: int|
            0 <= k < whole.len() implies {
            let e = #[trigger] whole[k];
            &&& 1 <= e.league_id <= li
            &&& 1 <= e.id <= tiers.len()
            &&& tiers[e.id - 1] == e
        } by {
            if k < base.len() {
                assert(whole[k] == base[k]);
            } else {
                assert(whole[k] == part[k - base.len()]);
                tiers.lemma_filter_pred(pred, k - base.len());
                crate::store::lemma_filter_mem(tiers, pred, k - base.len());
                let i = choose|i: int| 0 <= i < tiers.len() && #[trigger] tiers[i] == part[k
                    - base.len()];
                assert(tiers[i].id == i + 1);
            }
        }
        assert forall|k1: int, k2: int|
            0 <= k1 < k2 < whole.len() implies (#[trigger] whole[k1]).id != (
        #[trigger] whole[k2]).id by {
            if k2 < base.len() {
                assert(whole[k1] == base[k1] && whole[k2] == base[k2]);
            } else if k1 >= base.len() {
                assert(whole[k1] == part[k1 - base.len()] && whole[k2] == part[k2 - base.len()]);
            } else {
                assert(whole[k1] == base[k1] && whole[k2] == part[k2 - base.len()]);
                tiers.lemma_filter_pred(pred, k2 - base.len());
                if whole[k1].id == whole[k2].id {
                    assert(tiers[whole[k1].id - 1] == whole[k1]);
                    assert(tiers[whole[k2].id - 1] == whole[k2]);
                    assert(whole[k1].league_id <= li - 1);
                    assert(whole[k2].league_id == li);
                }
            }
        }
    }
}

/// The shape of a synthesized roster: sixteen items per division of the
/// schedule order, each with a skill in 1..=100 and carrying its
/// division's tier and league display names.
pub open spec fn generated_roster(
    leagues: Seq<League>,
    tiers: Seq<Tier>,
    items: Seq<TeamConfigItem>,
) -> bool {
    let ord = tiers_by_league_prefix(tiers, leagues.len() as int);
    &&& items.len() == 16 * ord.len()
    &&& (forall|j: int|
        0 <= j < items.len() ==> {
            let k = j / 16;
            &&& 1 <= (#[trigger] items[j]).skill <= 100
            &&& 0 <= k < ord.len()
            &&& items[j].tier@ == ord[k].name@
            &&& 1 <= ord[k].league_id <= leagues.len()
            &&& items[j].league@ == leagues[ord[k].league_id - 1].name@
        })
}

/// How many roster items name the tier called `tier_name` of the league
/// called `league_name`.
pub open spec fn roster_count(
    items: Seq<TeamConfigItem>,
    tier_name: Seq<char>,
    league_name: Seq<char>,
) -> int
    decreases items.len(),
{
    if items.len() == 0 {
        0
    } else {
        roster_count(items.drop_last(), tier_name, league_name) + if items.last().tier@
            == tier_name && items.last().league@ == league_name {
            1int
        } else {
            0int
        }
    }
}

/// Some configured league carries the display name `name`.
pub open spec fn league_name_listed(leagues: Seq<LeagueConfigItem>, name: Seq<char>) -> bool {
    exists|c: int| 0 <= c < leagues.len() && name == (#[trigger] leagues[c]).name@
}

/// Some configured tier carries the display name `tier_name` under the
/// league display name `league_name`.
pub open spec fn tier_pair_listed(
    tiers: Seq<TierConfigItem>,
    tier_name: Seq<char>,
    league_name: Seq<char>,
) -> bool {
    exists|ti: int|
        0 <= ti < tiers.len() && tier_name == (#[trigger] tiers[ti]).name@ && league_name
            == tiers[ti].league@
}

/// A supplied roster on which registration over a `bootstrap_config_ok`
/// league configuration is guaranteed to succeed: bounded, skills in their
/// 0..=100 domain, every item naming a configured league and a configured
/// tier of that league, and every configured division receiving an even
/// squad of 2 through 256 teams.
pub open spec fn supplied_roster_ok(
    leagues: Seq<LeagueConfigItem>,
    tiers: Seq<TierConfigItem>,
    items: Seq<TeamConfigItem>,
) -> bool {
    &&& items.len() <= 0x100000
    &&& (forall|j: int| 0 <= j < items.len() ==> 0 <= (#[trigger] items[j]).skill <= 100)
    &&& (forall|j: int|
        0 <= j < items.len() ==> league_name_listed(leagues, (#[trigger] items[j]).league@))
    &&& (forall|j: int|
        0 <= j < items.len() ==> tier_pair_listed(
            tiers,
            (#[trigger] items[j]).tier@,
            items[j].league@,
        ))
    &&& (forall|ti: int|
        0 <= ti < tiers.len() ==> {
            let cnt = roster_count(items, (#[trigger] tiers[ti]).name@, tiers[ti].league@);
            &&& cnt % 2 == 0
            &&& 2 <= cnt <= 256
        })
}

/// `items` carries the same roster as `given`, item for item.
pub open spec fn roster_mirror(given: Seq<TeamConfigItem>, items: Seq<TeamConfigItem>) -> bool {
    &&& items.len() == given.len()
    &&& (forall|j: int|
        0 <= j < given.len() ==> (#[trigger] items[j]).name@ == given[j].name@ && items[j].skill
            == given[j].skill && items[j].tier@ == given[j].tier@ && items[j].league@
            == given[j].league@)
}

/// Division counts only read the tier and league names, so they agree on
/// mirrored rosters.
proof fn lemma_roster_count_mirror(
    given: Seq<TeamConfigItem>,
    items: Seq<TeamConfigItem>,
    tier_name: Seq<char>,
    league_name: Seq<char>,
)
    requires
        roster_mirror(given, items),
    ensures
        roster_count(items, tier_name, league_name) == roster_count(
            given,
            tier_name,
            league_name,
        ),
    decreases given.len(),
{
    if given.len() > 0 {
        assert forall|j: int|
            0 <= j < given.drop_last().len() implies (#[trigger] items.drop_last()[j]).name@
            == given.drop_last()[j].name@ && items.drop_last()[j].skill
            == given.drop_last()[j].skill && items.drop_last()[j].tier@
            == given.drop_last()[j].tier@ && items.drop_last()[j].league@
            == given.drop_last()[j].league@ by {
            assert(items.drop_last()[j] == items[j]);
            assert(given.drop_last()[j] == given[j]);
        }
        lemma_roster_count_mirror(given.drop_last(), items.drop_last(), tier_name, league_name);
        assert(items[items.len() - 1] == items.last());
        assert(given[given.len() - 1] == given.last());
    }
}

/// A roster guaranteed to register stays so under mirroring.
proof fn lemma_roster_ok_mirror(
    leagues: Seq<LeagueConfigItem>,
    tiers: Seq<TierConfigItem>,
    given: Seq<TeamConfigItem>,
    items: Seq<TeamConfigItem>,
)
    requires
        supplied_roster_ok(leagues, tiers, given),
        roster_mirror(given, items),
    ensures
        supplied_roster_ok(leagues, tiers, items),
{
    assert forall|j: int| 0 <= j < items.len() implies 0 <= (#[trigger] items[j]).skill <= 100 by {
        assert(0 <= given[j].skill <= 100);
    }
    assert forall|j: int|
        0 <= j < items.len() implies league_name_listed(
        leagues,
        (#[trigger] items[j]).league@,
    ) by {
        assert(league_name_listed(leagues, given[j].league@));
        assert(items[j].league@ == given[j].league@);
    }
    assert forall|j: int|
        0 <= j < items.len() implies tier_pair_listed(
        tiers,
        (#[trigger] items[j]).tier@,
        items[j].league@,
    ) by {
        assert(tier_pair_listed(tiers, given[j].tier@, given[j].league@));
        assert(items[j].tier@ == given[j].tier@ && items[j].league@ == given[j].league@);
    }
    assert forall|ti: int|
        0 <= ti < tiers.len() implies {
        let cnt = roster_count(items, (#[trigger] tiers[ti]).name@, tiers[ti].league@);
        &&& cnt % 2 == 0
        &&& 2 <= cnt <= 256
    } by {
        lemma_roster_count_mirror(given, items, tiers[ti].name@, tiers[ti].league@);
    }
}

/// A pointwise match between stored teams and roster items makes the
/// division filter exactly as long as the roster count.
proof fn lemma_filter_len_matches_count(
    teams: Seq<Team>,
    items: Seq<TeamConfigItem>,
    pred: spec_fn(Team) -> bool,
    tier_name: Seq<char>,
    league_name: Seq<char>,
)
    requires
        teams.len() == items.len(),
        forall|j: int|
            0 <= j < teams.len() ==> (pred(#[trigger] teams[j]) <==> ((#[trigger] items[j]).tier@
                == tier_name && items[j].league@ == league_name)),
    ensures
        teams.filter(pred).len() == roster_count(items, tier_name, league_name),
    decreases teams.len(),
{
    reveal(Seq::filter);
    if teams.len() > 0 {
        assert forall|j: int|
            0 <= j < teams.drop_last().len() implies (pred(#[trigger] teams.drop_last()[j]) <==> ((
        #[trigger] items.drop_last()[j]).tier@ == tier_name && items.drop_last()[j].league@
            == league_name)) by {
            assert(teams.drop_last()[j] == teams[j]);
            assert(items.drop_last()[j] == items[j]);
        }
        lemma_filter_len_matches_count(
            teams.drop_last(),
            items.drop_last(),
            pred,
            tier_name,
            league_name,
        );
        assert(teams[teams.len() - 1] == teams.last());
        assert(items[items.len() - 1] == items.last());
    }
}

/// With per-league tier names unique in the configuration, a stored name
/// and owning league pin down the tier: two stored tiers sharing both are
/// the same tier.
proof fn lemma_store_tier_pair_unique(
    lct: Seq<TierConfigItem>,
    leagues1: Seq<League>,
    tiers1: Seq<Tier>,
    a: int,
    b: int,
)
    requires
        forall|i: int, j: int|
            0 <= i < j < lct.len() && (#[trigger] lct[i]).league@ == (#[trigger] lct[j]).league@
                ==> lct[i].name@ != lct[j].name@,
        tiers1.len() == lct.len(),
        forall|i: int|
            0 <= i < tiers1.len() ==> (#[trigger] tiers1[i]).name@ == lct[i].name@
                && resolves_league(leagues1, lct[i].league@, tiers1[i].league_id),
        0 <= a < tiers1.len(),
        0 <= b < tiers1.len(),
        tiers1[a].name@ == tiers1[b].name@,
        tiers1[a].league_id == tiers1[b].league_id,
    ensures
        a == b,
{
    if a != b {
        let la = choose|li: int|
            {
                &&& 0 <= li < leagues1.len()
                &&& (#[trigger] leagues1[li]).name@ == lct[a].league@
                &&& tiers1[a].league_id == li + 1
                &&& (forall|x: int|
                    0 <= x < li ==> (#[trigger] leagues1[x]).name@ != lct[a].league@)
            };
        let lb = choose|li: int|
            {
                &&& 0 <= li < leagues1.len()
                &&& (#[trigger] leagues1[li]).name@ == lct[b].league@
                &&& tiers1[b].league_id == li + 1
                &&& (forall|x: int|
                    0 <= x < li ==> (#[trigger] leagues1[x]).name@ != lct[b].league@)
            };
        assert(la == lb);
        assert(lct[a].league@ == lct[b].league@);
        assert(lct[a].name@ != lct[b].name@);
    }
}

/// Only one identifier resolves a given league name.
proof fn lemma_resolves_league_unique(leagues: Seq<League>, name: Seq<char>, id1: i32, id2: i32)
    requires
        resolves_league(leagues, name, id1),
        resolves_league(leagues, name, id2),
    ensures
        id1 == id2,
{
    let i1 = choose|li: int|
        {
            &&& 0 <= li < leagues.len()
            &&& (#[trigger] leagues[li]).name@ == name
            &&& id1 == li + 1
            &&& (forall|x: int| 0 <= x < li ==> (#[trigger] leagues[x]).name@ != name)
        };
    let i2 = choose|li: int|
        {
            &&& 0 <= li < leagues.len()
            &&& (#[trigger] leagues[li]).name@ == name
            &&& id2 == li + 1
            &&& (forall|x: int| 0 <= x < li ==> (#[trigger] leagues[x]).name@ != name)
        };
    assert(i1 == i2);
}

/// One league identifier is resolved by at most one display name.
proof fn lemma_resolves_league_name(leagues: Seq<League>, n1: Seq<char>, n2: Seq<char>, id: i32)
    requires
        resolves_league(leagues, n1, id),
        resolves_league(leagues, n2, id),
    ensures
        n1 == n2,
{
    let i1 = choose|li: int|
        {
            &&& 0 <= li < leagues.len()
            &&& (#[trigger] leagues[li]).name@ == n1
            &&& id == li + 1
            &&& (forall|x: int| 0 <= x < li ==> (#[trigger] leagues[x]).name@ != n1)
        };
    let i2 = choose|li: int|
        {
            &&& 0 <= li < leagues.len()
            &&& (#[trigger] leagues[li]).name@ == n2
            &&& id == li + 1
            &&& (forall|x: int| 0 <= x < li ==> (#[trigger] leagues[x]).name@ != n2)
        };
    assert(i1 == i2);
}

/// For a supplied roster over a well-formed configuration, every division
/// of the schedule order holds exactly the teams the roster names for its
/// tier-and-league pair.
proof fn lemma_supplied_division_size(
    lcl: Seq<LeagueConfigItem>,
    lct: Seq<TierConfigItem>,
    leagues1: Seq<League>,
    tiers1: Seq<Tier>,
    teams1: Seq<Team>,
    items: Seq<TeamConfigItem>,
    kk: int,
)
    requires
        bootstrap_config_ok(lcl, lct),
        supplied_roster_ok(lcl, lct, items),
        leagues1.len() == lcl.len(),
        forall|i: int| 0 <= i < leagues1.len() ==> (#[trigger] leagues1[i]).name@ == lcl[i].name@,
        tiers1.len() == lct.len(),
        forall|i: int|
            0 <= i < tiers1.len() ==> (#[trigger] tiers1[i]).name@ == lct[i].name@
                && resolves_league(leagues1, lct[i].league@, tiers1[i].league_id),
        forall|i: int| 0 <= i < tiers1.len() ==> (#[trigger] tiers1[i]).id == i + 1,
        teams1.len() == items.len(),
        forall|j: int|
            0 <= j < teams1.len() ==> team_resolution(
                leagues1,
                tiers1,
                items[j].league@,
                items[j].tier@,
                (#[trigger] teams1[j]).tier_id,
            ),
        0 <= kk < tiers_by_league_prefix(tiers1, leagues1.len() as int).len(),
    ensures
        ({
            let ord = tiers_by_league_prefix(tiers1, leagues1.len() as int);
            teams1.filter(|t: Team| t.tier_id == ord[kk].id).len() == roster_count(
                items,
                lct[ord[kk].id - 1].name@,
                lct[ord[kk].id - 1].league@,
            )
        }),
{
    let nl = leagues1.len() as int;
    let ord = tiers_by_league_prefix(tiers1, nl);
    lemma_prefix_props(tiers1, nl);
    let t0 = ord[kk].id - 1;
    let pred = |t: Team| t.tier_id == ord[kk].id;
    assert(tiers1[t0] == ord[kk]);
    assert forall|j: int|
        0 <= j < teams1.len() implies (pred(#[trigger] teams1[j]) <==> ((#[trigger] items[j]).tier@
        == lct[t0].name@ && items[j].league@ == lct[t0].league@)) by {
        let lid = choose|lid: i32|
            #[trigger] resolves_league(leagues1, items[j].league@, lid) && resolves_tier(
                tiers1,
                items[j].tier@,
                lid,
                teams1[j].tier_id,
            );
        let ti = choose|ti: int|
            {
                &&& 0 <= ti < tiers1.len()
                &&& (#[trigger] tiers1[ti]).name@ == items[j].tier@
                &&& tiers1[ti].league_id == lid
                &&& teams1[j].tier_id == ti + 1
                &&& (forall|x: int|
                    0 <= x < ti ==> !((#[trigger] tiers1[x]).name@ == items[j].tier@
                        && tiers1[x].league_id == lid))
            };
        if pred(teams1[j]) {
            assert(ti == t0);
            assert(items[j].tier@ == lct[t0].name@);
            lemma_resolves_league_name(
                leagues1,
                items[j].league@,
                lct[t0].league@,
                lid,
            );
            assert(items[j].league@ == lct[t0].league@);
        }
        if items[j].tier@ == lct[t0].name@ && items[j].league@ == lct[t0].league@ {
            lemma_resolves_league_unique(
                leagues1,
                items[j].league@,
                lid,
                tiers1[t0].league_id,
            );
            if ti != t0 {
                lemma_store_tier_pair_unique(lct, leagues1, tiers1, ti, t0);
            }
            assert(teams1[j].tier_id == ord[kk].id);
        }
    }
    lemma_filter_len_matches_count(teams1, items, pred, lct[t0].name@, lct[t0].league@);
}

/// For a synthesized roster over a well-formed configuration, every
/// division of the schedule order holds exactly its sixteen teams.
proof fn lemma_generated_division_size(
    lcl: Seq<LeagueConfigItem>,
    lct: Seq<TierConfigItem>,
    leagues1: Seq<League>,
    tiers1: Seq<Tier>,
    teams1: Seq<Team>,
    items: Seq<TeamConfigItem>,
    kk: int,
)
    requires
        bootstrap_config_ok(lcl, lct),
        leagues1.len() == lcl.len(),
        forall|i: int| 0 <= i < leagues1.len() ==> (#[trigger] leagues1[i]).name@ == lcl[i].name@,
        tiers1.len() == lct.len(),
        forall|i: int|
            0 <= i < tiers1.len() ==> (#[trigger] tiers1[i]).name@ == lct[i].name@
                && resolves_league(leagues1, lct[i].league@, tiers1[i].league_id),
        forall|i: int| 0 <= i < tiers1.len() ==> (#[trigger] tiers1[i]).id == i + 1,
        generated_roster(leagues1, tiers1, items),
        teams1.len() == items.len(),
        forall|j: int|
            0 <= j < teams1.len() ==> team_resolution(
                leagues1,
                tiers1,
                items[j].league@,
                items[j].tier@,
                (#[trigger] teams1[j]).tier_id,
            ),
        0 <= kk < tiers_by_league_prefix(tiers1, leagues1.len() as int).len(),
    ensures
        teams1.filter(
            |t: Team|
                t.tier_id == tiers_by_league_prefix(
                    tiers1,
                    leagues1.len() as int,
                )[kk].id,
        ).len() == 16,
{
    let nl = leagues1.len() as int;
    let ord = tiers_by_league_prefix(tiers1, nl);
    lemma_prefix_props(tiers1, nl);
    let pred = |t: Team| t.tier_id == ord[kk].id;
    assert forall|j: int|
        0 <= j < teams1.len() implies (pred(#[trigger] teams1[j]) <==> 16 * kk <= j < 16 * kk
        + 16) by {
        lemma_fundamental_div_mod(j, 16);
        lemma_mod_division_less_than_divisor(j, 16);
        let k = j / 16;
        let l0 = ord[k].league_id;
        let lid = choose|lid: i32|
            #[trigger] resolves_league(leagues1, items[j].league@, lid) && resolves_tier(
                tiers1,
                items[j].tier@,
                lid,
                teams1[j].tier_id,
            );
        let li = choose|li: int|
            {
                &&& 0 <= li < leagues1.len()
                &&& (#[trigger] leagues1[li]).name@ == items[j].league@
                &&& lid == li + 1
                &&& (forall|x: int|
                    0 <= x < li ==> (#[trigger] leagues1[x]).name@ != items[j].league@)
            };
        assert(leagues1[li].name@ == leagues1[l0 - 1].name@);
        assert(li == l0 - 1) by {
            if li < l0 - 1 {
                assert(lcl[li].name@ != lcl[l0 - 1].name@);
            } else if li > l0 - 1 {
                assert(leagues1[l0 - 1].name@ != items[j].league@);
            }
        }
        assert(lid == l0);
        let ti = choose|ti: int|
            {
                &&& 0 <= ti < tiers1.len()
                &&& (#[trigger] tiers1[ti]).name@ == items[j].tier@
                &&& tiers1[ti].league_id == lid
                &&& teams1[j].tier_id == ti + 1
                &&& (forall|x: int|
                    0 <= x < ti ==> !((#[trigger] tiers1[x]).name@ == items[j].tier@
                        && tiers1[x].league_id == lid))
            };
        let c0 = ord[k].id - 1;
        assert(tiers1[c0] == ord[k]);
        assert(ti == c0) by {
            if ti < c0 {
                lemma_store_tier_pair_unique(lct, leagues1, tiers1, ti, c0);
            } else if ti > c0 {
                assert(!(tiers1[c0].name@ == items[j].tier@ && tiers1[c0].league_id == lid));
            }
        }
        assert(teams1[j].tier_id == ord[k].id);
        if 16 * kk <= j < 16 * kk + 16 {
            lemma_fundamental_div_mod_converse(j, 16, kk, j - 16 * kk);
            assert(pred(teams1[j]));
        }
        if pred(teams1[j]) {
            assert(ord[k].id == ord[kk].id);
            assert(k == kk);
        }
    }
    lemma_filter_count_block(teams1, pred, 16 * kk, 16 * kk + 16);
}

/// The division order never outgrows one pass over the tiers per league.
proof fn lemma_tiers_prefix_len(tiers: Seq<Tier>, li: int)
    requires
        li >= 0,
    ensures
        tiers_by_league_prefix(tiers, li).len() <= li * tiers.len(),
    decreases li,
{
    if li > 0 {
        lemma_tiers_prefix_len(tiers, li - 1);
        tiers.lemma_filter_len(|t: Tier| t.league_id == li as i32);
        assert((li - 1) * tiers.len() + tiers.len() == li * tiers.len()) by (nonlinear_arith);
    }
}

/// Every schedule of `s` is the double round-robin of its division, one
/// schedule per entry of `order`, in that order, all for season `y`.
pub open spec fn division_schedules_ok(
    s: Seq<ScheduleModel>,
    tiers: Seq<Tier>,
    teams: Seq<Team>,
    order: Seq<Tier>,
    y: int,
) -> bool {
    &&& s.len() == order.len()
    &&& (forall|k: int|
        0 <= k < s.len() ==> {
            let sm = #[trigger] s[k];
            let ids = division_roster_of(tiers, teams, order[k].league_id, order[k].id).map_values(
                |t: Team| t.id,
            );
            &&& sm.year == y
            &&& sm.tier_id == order[k].id as int
            &&& sm.league_id == order[k].league_id as int
            &&& valid_team_count(ids.len() as int)
            &&& sm.matchups.len() == rr_matchup_count(ids.len() as int)
            &&& (forall|q: int|
                0 <= q < sm.matchups.len() ==> (#[trigger] sm.matchups[q]) == rr_fixture(
                    ids,
                    k + 1,
                    q,
                ))
        })
}

impl GameHandlers {
    /// Advance the season by one week. When the season is already complete
    /// (the current week is past the final scheduled week of the year)
    /// nothing changes: re-running never double-advances. Otherwise every
    /// fixture due this week that is still unscored is simulated --
    /// already-scored fixtures keep their results -- and only then is the
    /// week counter raised by exactly one. A fixture whose team is missing
    /// stops the run with `NotFound` before the counter moves, so the call
    /// can safely be re-entered.
    pub fn next_week(store: &mut Store) -> (r: Result<(), Error>)
        requires
            old(store).wf(),
        ensures
            final(store).wf(),
            final(store).leagues@ == old(store).leagues@,
            final(store).tiers@ == old(store).tiers@,
            final(store).teams@ == old(store).teams@,
            final(store).game.year == old(store).game.year,
            final(store).game.schema_ver == old(store).game.schema_ver,
            ({
                let y = old(store).game.year as int;
                let wk = old(store).game.wk_no as int;
                let fw = max_week(year_ledger_of(old(store).sch(), y));
                match r {
                    Ok(()) => {
                        if wk > fw {
                            &&& final(store).sch() == old(store).sch()
                            &&& final(store).game == old(store).game
                        } else {
                            &&& week_advanced(
                                old(store).teams@,
                                old(store).sch(),
                                final(store).sch(),
                                y,
                                wk,
                            )
                            &&& final(store).game.wk_no == old(store).game.wk_no + 1
                        }
                    },
                    Err(e) => {
                        &&& e == Error::NotFound
                        &&& wk <= fw
                        &&& final(store).game == old(store).game
                        &&& (exists|a: int, b: int|
                            {
                                &&& 0 <= a < old(store).sch().len()
                                &&& 0 <= b < old(store).sch()[a].matchups.len()
                                &&& #[trigger] due_fixture(old(store).sch(), y, wk, a, b)
                                &&& !(1 <= matchup_in(old(store).sch(), a, b).home_team_id <= old(
                                    store,
                                ).teams@.len() && 1 <= matchup_in(
                                    old(store).sch(),
                                    a,
                                    b,
                                ).away_team_id <= old(store).teams@.len())
                            })
                        &&& (exists|a: int, b: int|
                            #[trigger] advance_state(
                                old(store).teams@,
                                old(store).sch(),
                                final(store).sch(),
                                y,
                                wk,
                                a,
                                b,
                            ))
                    },
                }
            }),
    {
        let wk: i32 = store.game.wk_no;
        let year: i32 = store.game.year;
        let ghost s0 = store.sch();
        let ghost teams0 = store.teams@;

        // First, find the final scheduled week of the year.
        let mut final_wk: i32 = 0;
        let mut si: usize = 0;
        while si < store.schedules.len()
            invariant
                store.wf(),
                si <= store.schedules@.len(),
                s0 == store.sch(),
                0 <= final_wk,
                final_wk as int == max_week(year_ledger_prefix(s0, year as int, si as int)),
            decreases store.schedules@.len() - si,
        {
            if store.schedules[si].year == year {
                let mut mi: usize = 0;
                while mi < store.schedules[si].matchups.len()
                    invariant
                        store.wf(),
                        si < store.schedules@.len(),
                        mi <= s0[si as int].matchups.len(),
                        s0 == store.sch(),
                        s0[si as int].year == year,
                        0 <= final_wk,
                        final_wk as int == max_week(
                            year_ledger_prefix(s0, year as int, si as int)
                                + s0[si as int].matchups.subrange(0, mi as int),
                        ),
                    decreases s0[si as int].matchups.len() - mi,
                {
                    let m: Matchup = store.schedules[si].matchups[mi];
                    proof {
                        assert(matchup_in(s0, si as int, mi as int) == m);
                        let base = year_ledger_prefix(s0, year as int, si as int);
                        let part = s0[si as int].matchups.subrange(0, mi as int);
                        assert(base + s0[si as int].matchups.subrange(0, mi + 1) =~= (base
                            + part).push(m));
                        lemma_max_week_push(base + part, m);
                    }
                    if m.wk_no > final_wk {
                        final_wk = m.wk_no;
                    }
                    mi = mi + 1;
                }
                proof {
                    assert(year_ledger_prefix(s0, year as int, si + 1) =~= year_ledger_prefix(
                        s0,
                        year as int,
                        si as int,
                    ) + s0[si as int].matchups.subrange(0, s0[si as int].matchups.len() as int));
                }
            } else {
                proof {
                    assert(year_ledger_prefix(s0, year as int, si + 1) =~= year_ledger_prefix(
                        s0,
                        year as int,
                        si as int,
                    ) + Seq::<Matchup>::empty());
                    lemma_max_week_concat(
                        year_ledger_prefix(s0, year as int, si as int),
                        Seq::<Matchup>::empty(),
                    );
                }
            }
            si = si + 1;
        }

        // A season already past its final week stays as it is.
        if wk > final_wk {
            return Ok(());
        }

        // Simulate every still-unscored fixture of this week, skipping the
        // ones already scored.
        let mut si: usize = 0;
        while si < store.schedules.len()
            invariant
                store.wf(),
                old(store).wf(),
                si <= store.schedules@.len(),
                store.leagues@ == old(store).leagues@,
                store.tiers@ == old(store).tiers@,
                store.teams@ == teams0,
                store.game == old(store).game,
                teams0 == old(store).teams@,
                s0 == old(store).sch(),
                year == old(store).game.year,
                wk == old(store).game.wk_no,
                wk as int <= max_week(year_ledger_of(s0, year as int)),
                advance_state(teams0, s0, store.sch(), year as int, wk as int, si as int, 0),
            decreases store.schedules@.len() - si,
        {
            proof {
                assert(store.sch()[si as int].year == s0[si as int].year);
                assert(store.sch()[si as int].matchups.len() == s0[si as int].matchups.len());
            }
            let year_matches: bool = store.schedules[si].year == year;
            let mut mi: usize = 0;
            let n_mi: usize = store.schedules[si].matchups.len();
            while mi < n_mi
                invariant
                    store.wf(),
                    old(store).wf(),
                    si < store.schedules@.len(),
                    mi <= n_mi,
                    n_mi == s0[si as int].matchups.len(),
                    store.leagues@ == old(store).leagues@,
                    store.tiers@ == old(store).tiers@,
                    store.teams@ == teams0,
                    store.game == old(store).game,
                    teams0 == old(store).teams@,
                    s0 == old(store).sch(),
                    year == old(store).game.year,
                    wk == old(store).game.wk_no,
                    wk as int <= max_week(year_ledger_of(s0, year as int)),
                    year_matches == (s0[si as int].year == year),
                    advance_state(
                        teams0,
                        s0,
                        store.sch(),
                        year as int,
                        wk as int,
                        si as int,
                        mi as int,
                    ),
                decreases n_mi - mi,
            {
                let m: Matchup = store.schedules[si].matchups[mi];
                proof {
                    assert(matchup_in(store.sch(), si as int, mi as int) == m);
                    assert(matchup_in(s0, si as int, mi as int) == m);
                }
                if year_matches && m.wk_no == wk && m.home_team_score.is_none() {
                    let ghost mid_sch = store.sch();
                    match m.compute_scores(store) {
                        Ok(()) => {
                            proof {
                                assert(m.id == si * (MAX_FIXTURES as int) + mi + 1);
                                lemma_fundamental_div_mod_converse(
                                    m.id - 1,
                                    MAX_FIXTURES as int,
                                    si as int,
                                    mi as int,
                                );
                                let (hs, aws) = choose|hs: i32, aws: i32|
                                    {
                                        &&& max_zero(
                                            teams0[m.home_team_id - 1].skill as int - 2,
                                        ) <= hs <= teams0[m.home_team_id - 1].skill as int + 4
                                        &&& max_zero(
                                            teams0[m.away_team_id - 1].skill as int - 2,
                                        ) <= aws <= teams0[m.away_team_id - 1].skill as int + 4
                                        &&& #[trigger] rescored(
                                            mid_sch,
                                            store.sch(),
                                            m.id as int,
                                            hs,
                                            aws,
                                        )
                                    };
                                assert(rescored(mid_sch, store.sch(), m.id as int, hs, aws));
                                let m1 = Matchup {
                                    home_team_score: Some(hs),
                                    away_team_score: Some(aws),
                                    ..m
                                };
                                assert(matchup_in(mid_sch, si as int, mi as int) == m);
                                assert(matchup_in(store.sch(), si as int, mi as int) == m1);
                                assert(simulated_version(teams0, m, m1));
                                assert forall|a: int, b: int|
                                    0 <= a < s0.len() && 0 <= b
                                        < s0[a].matchups.len() implies ({
                                    let m0 = matchup_in(s0, a, b);
                                    let mm = #[trigger] matchup_in(store.sch(), a, b);
                                    if (a < si as int || (a == si as int && b < mi + 1))
                                        && due_fixture(s0, year as int, wk as int, a, b) {
                                        simulated_version(teams0, m0, mm)
                                    } else {
                                        mm == m0
                                    }
                                }) by {
                                    assert(matchup_in(store.sch(), a, b) == store.sch()[a].matchups[b]);
                                    assert(matchup_in(mid_sch, a, b) == mid_sch[a].matchups[b]);
                                    assert(matchup_in(s0, a, b) == s0[a].matchups[b]);
                                }
                                assert(advance_state(
                                    teams0,
                                    s0,
                                    store.sch(),
                                    year as int,
                                    wk as int,
                                    si as int,
                                    mi + 1,
                                ));
                            }
                        }
                        Err(e) => {
                            proof {
                                assert(m.id == si * (MAX_FIXTURES as int) + mi + 1);
                                lemma_fundamental_div_mod_converse(
                                    m.id - 1,
                                    MAX_FIXTURES as int,
                                    si as int,
                                    mi as int,
                                );
                                assert(crate::store::id_located(mid_sch, m.id as int));
                                assert(due_fixture(s0, year as int, wk as int, si as int, mi as int));
                                assert(advance_state(
                                    teams0,
                                    s0,
                                    store.sch(),
                                    year as int,
                                    wk as int,
                                    si as int,
                                    mi as int,
                                ));
                            }
                            return Err(e);
                        }
                    }
                } else {
                    proof {
                        assert(advance_state(
                            teams0,
                            s0,
                            store.sch(),
                            year as int,
                            wk as int,
                            si as int,
                            mi + 1,
                        ));
                    }
                }
                mi = mi + 1;
            }
            proof {
                assert(advance_state(teams0, s0, store.sch(), year as int, wk as int, si + 1, 0));
            }
            si = si + 1;
        }

        // Only after the whole week is simulated does the counter move.
        proof {
            lemma_year_ledger_max_bound(s0, year as int, s0.len() as int);
        }
        GameState::set_week(store, wk + 1);
        Ok(())
    }

    /// Rebuild the whole competition from a league configuration: wipe the
    /// stored entities, register leagues and their tiers (ranks cycling 1
    /// through 4), register the given team roster -- or synthesize one of
    /// sixteen teams per tier with a skill drawn once per league from
    /// 1..=100 -- create one double round-robin schedule per division for
    /// the current season, and reset the week counter to 1. The roster
    /// actually used is returned so the caller can persist it. Success is
    /// owed -- and promised -- on every `bootstrap_config_ok` league
    /// configuration, with a synthesized roster or with any supplied
    /// roster satisfying `supplied_roster_ok`. A failure leaves a
    /// partially rebuilt store with the week counter untouched; the caller
    /// decides whether to wipe and retry.
    pub fn restart_game(
        store: &mut Store,
        league_config: &LeagueConfig,
        team_config: Option<&TeamConfig>,
    ) -> (r: Result<TeamConfig, Error>)
        requires
            old(store).wf(),
        ensures
            final(store).wf(),
            final(store).game.year == old(store).game.year,
            final(store).game.schema_ver == old(store).game.schema_ver,
            bootstrap_config_ok(league_config.leagues@, league_config.tiers@) && (match team_config {
                None => true,
                Some(tc) => supplied_roster_ok(
                    league_config.leagues@,
                    league_config.tiers@,
                    tc.teams@,
                ),
            }) ==> r is Ok,
            match r {
                Ok(cfg) => {
                    let leagues = final(store).leagues@;
                    let tiers = final(store).tiers@;
                    let teams = final(store).teams@;
                    let order = tiers_by_league_prefix(tiers, leagues.len() as int);
                    &&& final(store).game.wk_no == 1
                    &&& leagues.len() == league_config.leagues@.len()
                    &&& (forall|i: int|
                        0 <= i < leagues.len() ==> (#[trigger] leagues[i]).name@
                            == league_config.leagues@[i].name@ && leagues[i].abbr@
                            == league_config.leagues@[i].abbr@)
                    &&& tiers.len() == league_config.tiers@.len()
                    &&& (forall|i: int|
                        0 <= i < tiers.len() ==> (#[trigger] tiers[i]).name@
                            == league_config.tiers@[i].name@ && tiers[i].rank == i % 4 + 1
                            && resolves_league(
                            leagues,
                            league_config.tiers@[i].league@,
                            tiers[i].league_id,
                        ))
                    &&& teams.len() == cfg.teams@.len()
                    &&& (forall|j: int|
                        0 <= j < teams.len() ==> {
                            let it = cfg.teams@[j];
                            &&& (#[trigger] teams[j]).name@ == it.name@
                            &&& teams[j].skill == it.skill
                            &&& 0 <= it.skill <= 100
                            &&& team_resolution(leagues, tiers, it.league@, it.tier@, teams[j].tier_id)
                        })
                    &&& (match team_config {
                        Some(tc) => cfg.teams@.len() == tc.teams@.len() && (forall|j: int|
                            0 <= j < tc.teams@.len() ==> (#[trigger] cfg.teams@[j]).name@
                                == tc.teams@[j].name@ && cfg.teams@[j].skill == tc.teams@[j].skill
                                && cfg.teams@[j].tier@ == tc.teams@[j].tier@
                                && cfg.teams@[j].league@ == tc.teams@[j].league@),
                        None => generated_roster(leagues, tiers, cfg.teams@),
                    })
                    &&& division_schedules_ok(
                        final(store).sch(),
                        tiers,
                        teams,
                        order,
                        old(store).game.year as int,
                    )
                },
                Err(e) => final(store).game == old(store).game,
            },
    {
        // Machine limits on the configuration sizes.
        if league_config.leagues.len() > 0x1000 || league_config.tiers.len() > 0x1000 {
            return Err(Error::InvalidInput);
        }
        match team_config {
            Some(tc) => {
                if tc.teams.len() > 0x100000 {
                    return Err(Error::InvalidInput);
                }
            }
            None => {}
        }

        // Wipe every stored entity; the control record stays.
        store.leagues = Vec::new();
        store.tiers = Vec::new();
        store.teams = Vec::new();
        store.schedules = Vec::new();
        proof {
            assert(store.sch() =~= Seq::<ScheduleModel>::empty());
        }

        // Register the leagues, in configuration order.
        let mut li: usize = 0;
        while li < league_config.leagues.len()
            invariant
                store.wf(),
                old(store).wf(),
                league_config.leagues@.len() <= 0x1000,
                li <= league_config.leagues@.len(),
                store.game == old(store).game,
                store.tiers@ == Seq::<Tier>::empty(),
                store.teams@ == Seq::<Team>::empty(),
                store.sch() == Seq::<ScheduleModel>::empty(),
                store.leagues@.len() == li,
                forall|i: int|
                    0 <= i < li ==> (#[trigger] store.leagues@[i]).name@
                        == league_config.leagues@[i].name@ && store.leagues@[i].abbr@
                        == league_config.leagues@[i].abbr@,
            decreases league_config.leagues@.len() - li,
        {
            let name: String = league_config.leagues[li].name.clone();
            let abbr: String = league_config.leagues[li].abbr.clone();
            League::create(store, name, abbr);
            li = li + 1;
        }
        let ghost leagues1 = store.leagues@;

        // Register the tiers, ranks cycling 1 through 4, each owned by the
        // first league of its configured name.
        let mut rank: i32 = 1;
        let mut ti: usize = 0;
        while ti < league_config.tiers.len()
            invariant
                store.wf(),
                old(store).wf(),
                league_config.tiers@.len() <= 0x1000,
                ti <= league_config.tiers@.len(),
                rank as int == (ti as int) % 4 + 1,
                store.game == old(store).game,
                store.leagues@ == leagues1,
                leagues1.len() == league_config.leagues@.len(),
                forall|i: int|
                    0 <= i < leagues1.len() ==> (#[trigger] leagues1[i]).name@
                        == league_config.leagues@[i].name@,
                store.teams@ == Seq::<Team>::empty(),
                store.sch() == Seq::<ScheduleModel>::empty(),
                store.tiers@.len() == ti,
                forall|i: int|
                    0 <= i < ti ==> (#[trigger] store.tiers@[i]).name@
                        == league_config.tiers@[i].name@ && store.tiers@[i].rank == i % 4 + 1
                        && resolves_league(
                        leagues1,
                        league_config.tiers@[i].league@,
                        store.tiers@[i].league_id,
                    ),
            decreases league_config.tiers@.len() - ti,
        {
            let league_name: String = league_config.tiers[ti].league.clone();
            let lg: League = match League::get_by_name(store, league_name) {
                Ok(lg) => lg,
                Err(e) => {
                    proof {
                        if bootstrap_config_ok(
                            league_config.leagues@,
                            league_config.tiers@,
                        ) {
                            let c = choose|c: int|
                                0 <= c < league_config.leagues@.len()
                                    && league_config.tiers@[ti as int].league@ == (
                                #[trigger] league_config.leagues@[c]).name@;
                            assert(store.leagues@[c].name@
                                == league_config.tiers@[ti as int].league@);
                            assert(false);
                        }
                    }
                    return Err(e);
                }
            };
            proof {
                let w = choose|i: int|
                    {
                        &&& 0 <= i < store.leagues@.len()
                        &&& #[trigger] store.leagues@[i] == lg
                        &&& lg.name@ == league_config.tiers@[ti as int].league@
                        &&& forall|j: int|
                            0 <= j < i ==> (#[trigger] store.leagues@[j]).name@
                                != league_config.tiers@[ti as int].league@
                    };
                assert(resolves_league(leagues1, league_config.tiers@[ti as int].league@, lg.id));
            }
            let tier_name: String = league_config.tiers[ti].name.clone();
            Tier::create(store, tier_name, rank, lg.id);
            rank = rank + 1;
            if rank > 4 {
                rank = 1;
            }
            ti = ti + 1;
        }
        let ghost tiers1 = store.tiers@;

        // The roster to register: the given one, or a synthesized one of
        // sixteen sequentially named teams per tier, with one skill drawn
        // per league.
        let mut items: Vec<TeamConfigItem> = Vec::new();
        match team_config {
            Some(tc) => {
                let mut j: usize = 0;
                while j < tc.teams.len()
                    invariant
                        j <= tc.teams@.len(),
                        items@.len() == j,
                        forall|k: int|
                            0 <= k < j ==> (#[trigger] items@[k]).name@ == tc.teams@[k].name@
                                && items@[k].skill == tc.teams@[k].skill && items@[k].tier@
                                == tc.teams@[k].tier@ && items@[k].league@ == tc.teams@[k].league@,
                    decreases tc.teams@.len() - j,
                {
                    items.push(tc.teams[j].clone());
                    j = j + 1;
                }
            }
            None => {
                let all_leagues: Vec<League> = League::get_all(store);
                let mut a: usize = 0;
                let ghost done: int = 0int;
                while a < all_leagues.len()
                    invariant
                        store.wf(),
                        store.leagues@ == leagues1,
                        store.tiers@ == tiers1,
                        all_leagues@ == leagues1,
                        a <= leagues1.len(),
                        done == tiers_by_league_prefix(tiers1, a as int).len(),
                        items@.len() == 16 * done,
                        forall|j: int|
                            0 <= j < items@.len() ==> {
                                let k = j / 16;
                                let order = tiers_by_league_prefix(tiers1, a as int);
                                &&& 1 <= (#[trigger] items@[j]).skill <= 100
                                &&& 0 <= k < order.len()
                                &&& items@[j].tier@ == order[k].name@
                                &&& 1 <= order[k].league_id <= leagues1.len()
                                &&& items@[j].league@ == leagues1[order[k].league_id - 1].name@
                            },
                    decreases leagues1.len() - a,
                {
                    let skill: i32 = random_in_range(1, 101);
                    let lt: Vec<Tier> = all_leagues[a].get_tiers(store);
                    let ghost base_order = tiers_by_league_prefix(tiers1, a as int);
                    let mut b: usize = 0;
                    while b < lt.len()
                        invariant
                            store.wf(),
                            store.leagues@ == leagues1,
                            store.tiers@ == tiers1,
                            all_leagues@ == leagues1,
                            a < leagues1.len(),
                            1 <= skill <= 100,
                            lt@ == tiers1.filter(
                                |t: Tier| t.league_id == leagues1[a as int].id,
                            ),
                            leagues1[a as int].id == a + 1,
                            base_order == tiers_by_league_prefix(tiers1, a as int),
                            b <= lt@.len(),
                            done == base_order.len(),
                            items@.len() == 16 * (done + b),
                            forall|j: int|
                                0 <= j < items@.len() ==> {
                                    let k = j / 16;
                                    let order = base_order + lt@.subrange(0, b as int);
                                    &&& 1 <= (#[trigger] items@[j]).skill <= 100
                                    &&& 0 <= k < order.len()
                                    &&& items@[j].tier@ == order[k].name@
                                    &&& 1 <= order[k].league_id <= leagues1.len()
                                    &&& items@[j].league@ == leagues1[order[k].league_id - 1].name@
                                },
                        decreases lt@.len() - b,
                    {
                        proof {
                            tiers1.lemma_filter_pred(
                                |t: Tier| t.league_id == leagues1[a as int].id,
                                b as int,
                            );
                        }
                        let mut c: usize = 0;
                        while c < 16
                            invariant
                                store.wf(),
                                store.leagues@ == leagues1,
                                store.tiers@ == tiers1,
                                all_leagues@ == leagues1,
                                a < leagues1.len(),
                                1 <= skill <= 100,
                                lt@ == tiers1.filter(
                                    |t: Tier| t.league_id == leagues1[a as int].id,
                                ),
                                leagues1[a as int].id == a + 1,
                                base_order == tiers_by_league_prefix(tiers1, a as int),
                                b < lt@.len(),
                                lt@[b as int].league_id == a + 1,
                                done == base_order.len(),
                                c <= 16,
                                items@.len() == 16 * (done + b) + c,
                                forall|j: int|
                                    0 <= j < items@.len() ==> {
                                        let k = j / 16;
                                        let order = base_order + lt@.subrange(0, b + 1);
                                        &&& 1 <= (#[trigger] items@[j]).skill <= 100
                                        &&& 0 <= k < order.len()
                                        &&& items@[j].tier@ == order[k].name@
                                        &&& 1 <= order[k].league_id <= leagues1.len()
                                        &&& items@[j].league@ == leagues1[order[k].league_id
                                            - 1].name@
                                    },
                            decreases 16 - c,
                        {
                            let digit: &str = match lt[b].rank {
                                1 => "1",
                                2 => "2",
                                3 => "3",
                                _ => "4",
                            };
                            let letter: &str = match c {
                                0 => "A",
                                1 => "B",
                                2 => "C",
                                3 => "D",
                                4 => "E",
                                5 => "F",
                                6 => "G",
                                7 => "H",
                                8 => "I",
                                9 => "J",
                                10 => "K",
                                11 => "L",
                                12 => "M",
                                13 => "N",
                                14 => "O",
                                _ => "P",
                            };
                            let name: String = all_leagues[a].abbr.clone().concat(digit).concat(
                                " ",
                            ).concat(letter);
                            let item = TeamConfigItem {
                                name,
                                skill,
                                tier: lt[b].name.clone(),
                                league: all_leagues[a].name.clone(),
                            };
                            let ghost items_pre = items@;
                            items.push(item);
                            proof {
                                let jn = items@.len() - 1;
                                lemma_fundamental_div_mod_converse(
                                    jn,
                                    16,
                                    done + b,
                                    c as int,
                                );
                                assert((base_order + lt@.subrange(0, b + 1))[done + b]
                                    == lt@[b as int]);
                                assert forall|j2: int|
                                    0 <= j2 < items@.len() implies {
                                    let k = j2 / 16;
                                    let order = base_order + lt@.subrange(0, b + 1);
                                    &&& 1 <= (#[trigger] items@[j2]).skill <= 100
                                    &&& 0 <= k < order.len()
                                    &&& items@[j2].tier@ == order[k].name@
                                    &&& 1 <= order[k].league_id <= leagues1.len()
                                    &&& items@[j2].league@ == leagues1[order[k].league_id
                                        - 1].name@
                                } by {
                                    if j2 < jn {
                                        assert(items@[j2] == items_pre[j2]);
                                        assert(1 <= items_pre[j2].skill <= 100);
                                    } else {
                                        assert(items@[j2] == item);
                                    }
                                }
                            }
                            c = c + 1;
                        }
                        proof {
                            assert(lt@.subrange(0, b + 1) =~= lt@.subrange(0, b as int).push(
                                lt@[b as int],
                            ));
                        }
                        b = b + 1;
                    }
                    proof {
                        assert(tiers_by_league_prefix(tiers1, a + 1) =~= base_order + lt@.subrange(
                            0,
                            lt@.len() as int,
                        ));
                    }
                    let ghost done2 = tiers_by_league_prefix(tiers1, a + 1).len() as int;
                    proof {
                        done = done2;
                    }
                    a = a + 1;
                }
                proof {
                    assert(generated_roster(leagues1, tiers1, items@));
                }
            }
        }

        proof {
            match team_config {
                Some(tc) => {
                    assert(items@.len() <= 0x1000_0000);
                }
                None => {
                    lemma_tiers_prefix_len(tiers1, leagues1.len() as int);
                    assert((leagues1.len() as int) * (tiers1.len() as int) <= 0x100_0000)
                        by (nonlinear_arith)
                        requires
                            leagues1.len() <= 0x1000,
                            tiers1.len() <= 0x1000,
                    ;
                    assert(items@.len() <= 0x1000_0000);
                }
            }
        }

        // Register every team of the roster, resolving its league and tier
        // by display name.
        let mut j: usize = 0;
        while j < items.len()
            invariant
                store.wf(),
                old(store).wf(),
                items@.len() <= 0x1000_0000,
                j <= items@.len(),
                store.game == old(store).game,
                store.leagues@ == leagues1,
                store.tiers@ == tiers1,
                leagues1.len() == league_config.leagues@.len(),
                forall|i: int|
                    0 <= i < leagues1.len() ==> (#[trigger] leagues1[i]).name@
                        == league_config.leagues@[i].name@,
                tiers1.len() == league_config.tiers@.len(),
                forall|i: int|
                    0 <= i < tiers1.len() ==> (#[trigger] tiers1[i]).name@
                        == league_config.tiers@[i].name@ && resolves_league(
                        leagues1,
                        league_config.tiers@[i].league@,
                        tiers1[i].league_id,
                    ),
                team_config is None ==> generated_roster(leagues1, tiers1, items@),
                team_config matches Some(tc) ==> roster_mirror(tc.teams@, items@),
                store.sch() == Seq::<ScheduleModel>::empty(),
                store.teams@.len() == j,
                forall|k: int|
                    0 <= k < j ==> {
                        let it = items@[k];
                        &&& (#[trigger] store.teams@[k]).name@ == it.name@
                        &&& store.teams@[k].skill == it.skill
                        &&& 0 <= it.skill <= 100
                        &&& team_resolution(
                            leagues1,
                            tiers1,
                            it.league@,
                            it.tier@,
                            store.teams@[k].tier_id,
                        )
                    },
            decreases items@.len() - j,
        {
            let skill: i32 = items[j].skill;
            if skill < 0 || skill > 100 {
                proof {
                    if team_config is None {
                        assert(1 <= items@[j as int].skill <= 100);
                    }
                    match team_config {
                        Some(tc) => {
                            if supplied_roster_ok(
                                league_config.leagues@,
                                league_config.tiers@,
                                tc.teams@,
                            ) {
                                assert(items@[j as int].skill == tc.teams@[j as int].skill);
                                assert(0 <= tc.teams@[j as int].skill <= 100);
                                assert(false);
                            }
                        }
                        None => {}
                    }
                }
                return Err(Error::InvalidInput);
            }
            let lg: League = match League::get_by_name(store, items[j].league.clone()) {
                Ok(lg) => lg,
                Err(e) => {
                    proof {
                        if team_config is None && bootstrap_config_ok(
                            league_config.leagues@,
                            league_config.tiers@,
                        ) {
                            let ord = tiers_by_league_prefix(tiers1, leagues1.len() as int);
                            let k = j as int / 16;
                            assert(items@[j as int].league@ == leagues1[ord[k].league_id
                                - 1].name@);
                            assert(store.leagues@[ord[k].league_id - 1].name@ == items@[j
                                as int].league@);
                            assert(false);
                        }
                        match team_config {
                            Some(tc) => {
                                if bootstrap_config_ok(league_config.leagues@, league_config.tiers@)
                                    && supplied_roster_ok(
                                    league_config.leagues@,
                                    league_config.tiers@,
                                    tc.teams@,
                                ) {
                                    assert(league_name_listed(
                                        league_config.leagues@,
                                        tc.teams@[j as int].league@,
                                    ));
                                    let c = choose|c: int|
                                        0 <= c < league_config.leagues@.len()
                                            && tc.teams@[j as int].league@ == (
                                        #[trigger] league_config.leagues@[c]).name@;
                                    assert(items@[j as int].league@ == tc.teams@[j
                                        as int].league@);
                                    assert(store.leagues@[c].name@ == items@[j as int].league@);
                                    assert(false);
                                }
                            }
                            None => {}
                        }
                    }
                    return Err(e);
                }
            };
            let tr: Tier = match Tier::get_by_name(store, items[j].tier.clone(), lg.id) {
                Ok(tr) => tr,
                Err(e) => {
                    proof {
                        if team_config is None && bootstrap_config_ok(
                            league_config.leagues@,
                            league_config.tiers@,
                        ) {
                            let nl = leagues1.len() as int;
                            let ord = tiers_by_league_prefix(tiers1, nl);
                            let k = j as int / 16;
                            let l0 = ord[k].league_id;
                            let li = choose|i: int|
                                {
                                    &&& 0 <= i < store.leagues@.len()
                                    &&& #[trigger] store.leagues@[i] == lg
                                    &&& lg.name@ == items@[j as int].league@
                                    &&& (forall|x: int|
                                        0 <= x < i ==> (#[trigger] store.leagues@[x]).name@
                                            != items@[j as int].league@)
                                };
                            assert(leagues1[li].name@ == leagues1[l0 - 1].name@);
                            assert(li == l0 - 1) by {
                                if li < l0 - 1 {
                                    assert(league_config.leagues@[li].name@
                                        != league_config.leagues@[l0 - 1].name@);
                                } else if li > l0 - 1 {
                                    assert(leagues1[l0 - 1].name@ != items@[j as int].league@);
                                }
                            }
                            assert(lg.id == l0);
                            lemma_prefix_props(tiers1, nl);
                            assert(tiers1[ord[k].id - 1] == ord[k]);
                            assert(!(store.tiers@[ord[k].id - 1].name@ == items@[j as int].tier@
                                && store.tiers@[ord[k].id - 1].league_id == lg.id));
                            assert(false);
                        }
                        match team_config {
                            Some(tc) => {
                                if bootstrap_config_ok(league_config.leagues@, league_config.tiers@)
                                    && supplied_roster_ok(
                                    league_config.leagues@,
                                    league_config.tiers@,
                                    tc.teams@,
                                ) {
                                    assert(tier_pair_listed(
                                        league_config.tiers@,
                                        tc.teams@[j as int].tier@,
                                        tc.teams@[j as int].league@,
                                    ));
                                    let ti0 = choose|ti: int|
                                        0 <= ti < league_config.tiers@.len()
                                            && tc.teams@[j as int].tier@ == (
                                        #[trigger] league_config.tiers@[ti]).name@
                                            && tc.teams@[j as int].league@
                                            == league_config.tiers@[ti].league@;
                                    assert(items@[j as int].tier@ == tc.teams@[j as int].tier@
                                        && items@[j as int].league@ == tc.teams@[j
                                        as int].league@);
                                    assert(tiers1[ti0].name@ == items@[j as int].tier@);
                                    let li = choose|i: int|
                                        {
                                            &&& 0 <= i < store.leagues@.len()
                                            &&& #[trigger] store.leagues@[i] == lg
                                            &&& lg.name@ == items@[j as int].league@
                                            &&& (forall|x: int|
                                                0 <= x < i ==> (
                                                #[trigger] store.leagues@[x]).name@ != items@[j
                                                    as int].league@)
                                        };
                                    assert(resolves_league(
                                        leagues1,
                                        items@[j as int].league@,
                                        lg.id,
                                    ));
                                    assert(resolves_league(
                                        leagues1,
                                        league_config.tiers@[ti0].league@,
                                        tiers1[ti0].league_id,
                                    ));
                                    lemma_resolves_league_unique(
                                        leagues1,
                                        items@[j as int].league@,
                                        lg.id,
                                        tiers1[ti0].league_id,
                                    );
                                    assert(!(store.tiers@[ti0].name@ == items@[j as int].tier@
                                        && store.tiers@[ti0].league_id == lg.id));
                                    assert(false);
                                }
                            }
                            None => {}
                        }
                    }
                    return Err(e);
                }
            };
            proof {
                let w1 = choose|i: int|
                    {
                        &&& 0 <= i < store.leagues@.len()
                        &&& #[trigger] store.leagues@[i] == lg
                        &&& lg.name@ == items@[j as int].league@
                        &&& forall|x: int|
                            0 <= x < i ==> (#[trigger] store.leagues@[x]).name@
                                != items@[j as int].league@
                    };
                assert(resolves_league(leagues1, items@[j as int].league@, lg.id));
                let w2 = choose|i: int|
                    {
                        &&& 0 <= i < store.tiers@.len()
                        &&& #[trigger] store.tiers@[i] == tr
                        &&& tr.name@ == items@[j as int].tier@
                        &&& tr.league_id == lg.id
                        &&& forall|x: int|
                            0 <= x < i ==> !((#[trigger] store.tiers@[x]).name@
                                == items@[j as int].tier@ && store.tiers@[x].league_id == lg.id)
                    };
                assert(resolves_tier(tiers1, items@[j as int].tier@, lg.id, tr.id));
                assert(team_resolution(
                    leagues1,
                    tiers1,
                    items@[j as int].league@,
                    items@[j as int].tier@,
                    tr.id,
                ));
            }
            Team::create(store, items[j].name.clone(), skill, tr.id, lg.id);
            j = j + 1;
        }
        let ghost teams1 = store.teams@;

        // One double round-robin schedule per division, league by league.
        let year: i32 = store.game.year;
        let all_leagues: Vec<League> = League::get_all(store);
        let mut a: usize = 0;
        while a < all_leagues.len()
            invariant
                store.wf(),
                old(store).wf(),
                year == old(store).game.year,
                a <= leagues1.len(),
                store.game == old(store).game,
                store.leagues@ == leagues1,
                store.tiers@ == tiers1,
                store.teams@ == teams1,
                all_leagues@ == leagues1,
                leagues1.len() == league_config.leagues@.len(),
                forall|i: int|
                    0 <= i < leagues1.len() ==> (#[trigger] leagues1[i]).name@
                        == league_config.leagues@[i].name@,
                tiers1.len() == league_config.tiers@.len(),
                forall|i: int|
                    0 <= i < tiers1.len() ==> (#[trigger] tiers1[i]).name@
                        == league_config.tiers@[i].name@ && resolves_league(
                        leagues1,
                        league_config.tiers@[i].league@,
                        tiers1[i].league_id,
                    ),
                team_config is None ==> generated_roster(leagues1, tiers1, items@),
                team_config matches Some(tc) ==> roster_mirror(tc.teams@, items@),
                teams1.len() == items@.len(),
                forall|k: int|
                    0 <= k < teams1.len() ==> team_resolution(
                        leagues1,
                        tiers1,
                        items@[k].league@,
                        items@[k].tier@,
                        (#[trigger] teams1[k]).tier_id,
                    ),
                division_schedules_ok(
                    store.sch(),
                    tiers1,
                    teams1,
                    tiers_by_league_prefix(tiers1, a as int),
                    year as int,
                ),
            decreases leagues1.len() - a,
        {
            let lt: Vec<Tier> = all_leagues[a].get_tiers(store);
            let ghost base_order = tiers_by_league_prefix(tiers1, a as int);
            let mut b: usize = 0;
            while b < lt.len()
                invariant
                    store.wf(),
                    old(store).wf(),
                    year == old(store).game.year,
                    a < leagues1.len(),
                    b <= lt@.len(),
                    store.game == old(store).game,
                    store.leagues@ == leagues1,
                    store.tiers@ == tiers1,
                    store.teams@ == teams1,
                    all_leagues@ == leagues1,
                    leagues1.len() == league_config.leagues@.len(),
                    forall|i: int|
                        0 <= i < leagues1.len() ==> (#[trigger] leagues1[i]).name@
                            == league_config.leagues@[i].name@,
                    tiers1.len() == league_config.tiers@.len(),
                    forall|i: int|
                        0 <= i < tiers1.len() ==> (#[trigger] tiers1[i]).name@
                            == league_config.tiers@[i].name@ && resolves_league(
                            leagues1,
                            league_config.tiers@[i].league@,
                            tiers1[i].league_id,
                        ),
                    team_config is None ==> generated_roster(leagues1, tiers1, items@),
                    team_config matches Some(tc) ==> roster_mirror(tc.teams@, items@),
                    teams1.len() == items@.len(),
                    forall|k: int|
                        0 <= k < teams1.len() ==> team_resolution(
                            leagues1,
                            tiers1,
                            items@[k].league@,
                            items@[k].tier@,
                            (#[trigger] teams1[k]).tier_id,
                        ),
                    lt@ == tiers1.filter(|t: Tier| t.league_id == leagues1[a as int].id),
                    leagues1[a as int].id == a + 1,
                    base_order == tiers_by_league_prefix(tiers1, a as int),
                    division_schedules_ok(
                        store.sch(),
                        tiers1,
                        teams1,
                        base_order + lt@.subrange(0, b as int),
                        year as int,
                    ),
                decreases lt@.len() - b,
            {
                proof {
                    tiers1.lemma_filter_pred(
                        |t: Tier| t.league_id == leagues1[a as int].id,
                        b as int,
                    );
                }
                let ghost pre_sch = store.sch();
                match Schedule::create_round_robin(store, all_leagues[a].id, lt[b].id, year) {
                    Ok(s) => {
                        proof {
                            assert(store.sch() == pre_sch.push(s@));
                            assert((base_order + lt@.subrange(0, b + 1))[pre_sch.len() as int]
                                == lt@[b as int]);
                            assert(division_schedules_ok(
                                store.sch(),
                                tiers1,
                                teams1,
                                base_order + lt@.subrange(0, b + 1),
                                year as int,
                            ));
                        }
                    }
                    Err(e) => {
                        proof {
                            if team_config is None && bootstrap_config_ok(
                                league_config.leagues@,
                                league_config.tiers@,
                            ) {
                                let nl = leagues1.len() as int;
                                let ord = tiers_by_league_prefix(tiers1, nl);
                                let kk = base_order.len() as int + b;
                                lemma_prefix_len_exact(tiers1, nl);
                                lemma_prefix_extends(tiers1, a + 1, nl);
                                assert(tiers_by_league_prefix(tiers1, a + 1)[kk] == lt@[b as int]);
                                assert(ord[kk] == lt@[b as int]);
                                lemma_prefix_props(tiers1, nl);
                                assert(tiers1[lt@[b as int].id - 1] == lt@[b as int]);
                                lemma_generated_division_size(
                                    league_config.leagues@,
                                    league_config.tiers@,
                                    leagues1,
                                    tiers1,
                                    teams1,
                                    items@,
                                    kk,
                                );
                                assert(division_roster_of(
                                    tiers1,
                                    teams1,
                                    all_leagues@[a as int].id,
                                    lt@[b as int].id,
                                ) == teams1.filter(|t: Team| t.tier_id == ord[kk].id));
                                assert(false);
                            }
                            match team_config {
                                Some(tc) => {
                                    if bootstrap_config_ok(
                                        league_config.leagues@,
                                        league_config.tiers@,
                                    ) && supplied_roster_ok(
                                        league_config.leagues@,
                                        league_config.tiers@,
                                        tc.teams@,
                                    ) {
                                        let nl = leagues1.len() as int;
                                        let ord = tiers_by_league_prefix(tiers1, nl);
                                        let kk = base_order.len() as int + b;
                                        lemma_prefix_len_exact(tiers1, nl);
                                        lemma_prefix_extends(tiers1, a + 1, nl);
                                        assert(tiers_by_league_prefix(tiers1, a + 1)[kk] == lt@[b
                                            as int]);
                                        assert(ord[kk] == lt@[b as int]);
                                        lemma_prefix_props(tiers1, nl);
                                        assert(tiers1[lt@[b as int].id - 1] == lt@[b as int]);
                                        lemma_roster_ok_mirror(
                                            league_config.leagues@,
                                            league_config.tiers@,
                                            tc.teams@,
                                            items@,
                                        );
                                        lemma_supplied_division_size(
                                            league_config.leagues@,
                                            league_config.tiers@,
                                            leagues1,
                                            tiers1,
                                            teams1,
                                            items@,
                                            kk,
                                        );
                                        assert(division_roster_of(
                                            tiers1,
                                            teams1,
                                            all_leagues@[a as int].id,
                                            lt@[b as int].id,
                                        ) == teams1.filter(|t: Team| t.tier_id == ord[kk].id));
                                        let t0 = ord[kk].id - 1;
                                        assert(0 <= t0 < league_config.tiers@.len());
                                        assert(false);
                                    }
                                }
                                None => {}
                            }
                        }
                        return Err(e);
                    }
                }
                b = b + 1;
            }
            proof {
                assert(tiers_by_league_prefix(tiers1, a + 1) =~= base_order + lt@.subrange(
                    0,
                    lt@.len() as int,
                ));
            }
            a = a + 1;
        }

        // Finally, the season starts over at week 1.
        GameState::set_week(store, 1);
        Ok(TeamConfig { teams: items })
    }
}

} // verus!
