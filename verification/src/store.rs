//! The in-memory entity store: a single, explicitly passed handle holding
//! every League, Tier, Team, Schedule and the singleton GameState record.
//! Identifiers are dense: the entity with id `k` sits at index `k - 1`;
//! matchup identifiers encode their schedule and position.

use crate::models::game::GameState;
use vstd::pervasive::VecAdditionalExecFns;
use crate::models::league::League;
use crate::models::matchup::{scores_consistent, Matchup};
use crate::models::schedule::{Schedule, ScheduleModel};
use crate::models::team::Team;
use crate::models::tier::Tier;
use vstd::prelude::*;

verus! {

/// Most entities a single store can hold of one kind.
pub const MAX_ENTITIES: usize = 0x1000_0000;

/// Most schedules a single store can hold.
pub const MAX_SCHEDULES: usize = 0x4000;

/// Most fixtures one schedule can hold: matchup ids are
/// `(schedule_id - 1) * MAX_FIXTURES + position + 1`.
pub const MAX_FIXTURES: usize = 0x10000;

/// Durable state of the whole competition, passed explicitly to every
/// operation that reads or writes it.
pub struct Store {
    pub leagues: Vec<League>,
    pub tiers: Vec<Tier>,
    pub teams: Vec<Team>,
    pub schedules: Vec<Schedule>,
    pub game: GameState,
}

/// The models of a schedule list.
pub open spec fn models_of(schedules: Seq<Schedule>) -> Seq<ScheduleModel> {
    schedules.map_values(|s: Schedule| s@)
}

/// League identifiers are dense and the list is bounded.
pub open spec fn leagues_wf(leagues: Seq<League>) -> bool {
    &&& leagues.len() <= MAX_ENTITIES
    &&& forall|i: int| 0 <= i < leagues.len() ==> (#[trigger] leagues[i]).id == i + 1
}

/// Tier identifiers are dense and the list is bounded.
pub open spec fn tiers_wf(tiers: Seq<Tier>) -> bool {
    &&& tiers.len() <= MAX_ENTITIES
    &&& forall|i: int| 0 <= i < tiers.len() ==> (#[trigger] tiers[i]).id == i + 1
}

/// Team identifiers are dense, skills sit in their 0..=100 domain, and the
/// list is bounded.
pub open spec fn teams_wf(teams: Seq<Team>) -> bool {
    &&& teams.len() <= MAX_ENTITIES
    &&& forall|i: int| 0 <= i < teams.len() ==> (#[trigger] teams[i]).id == i + 1
    &&& forall|i: int| 0 <= i < teams.len() ==> 0 <= (#[trigger] teams[i]).skill <= 100
}

/// The matchup at position `mi` of the schedule at index `si`.
pub open spec fn matchup_in(schedules: Seq<ScheduleModel>, si: int, mi: int) -> Matchup {
    schedules[si].matchups[mi]
}

/// Schedule identifiers are dense; every matchup's identifier encodes its
/// place, its week number is a positive bounded integer, and its scores are
/// either both set or both unset.
pub open spec fn schedules_wf(schedules: Seq<ScheduleModel>) -> bool {
    &&& schedules.len() <= MAX_SCHEDULES
    &&& forall|si: int| 0 <= si < schedules.len() ==> (#[trigger] schedules[si]).id == si + 1
    &&& forall|si: int|
        0 <= si < schedules.len() ==> (#[trigger] schedules[si]).matchups.len() <= MAX_FIXTURES
    &&& forall|si: int, mi: int|
        0 <= si < schedules.len() && 0 <= mi < schedules[si].matchups.len() ==> {
            let m = #[trigger] matchup_in(schedules, si, mi);
            &&& m.id == si * (MAX_FIXTURES as int) + mi + 1
            &&& 1 <= m.wk_no <= 0x4000_0000
            &&& scores_consistent(m)
        }
}

/// The matchups of the first `si` schedules, in store order.
pub open spec fn ledger_prefix(schedules: Seq<ScheduleModel>, si: int) -> Seq<Matchup>
    decreases si,
{
    if si <= 0 {
        Seq::empty()
    } else {
        ledger_prefix(schedules, si - 1) + schedules[si - 1].matchups
    }
}

/// The full append-only matchup ledger: all matchups of all schedules, in
/// store order.
pub open spec fn ledger_of(schedules: Seq<ScheduleModel>) -> Seq<Matchup> {
    ledger_prefix(schedules, schedules.len() as int)
}

/// The matchups of the first `si` schedules of season `year`.
pub open spec fn year_ledger_prefix(schedules: Seq<ScheduleModel>, year: int, si: int) -> Seq<
    Matchup,
>
    decreases si,
{
    if si <= 0 {
        Seq::empty()
    } else {
        year_ledger_prefix(schedules, year, si - 1) + (if schedules[si - 1].year == year {
            schedules[si - 1].matchups
        } else {
            Seq::empty()
        })
    }
}

/// All matchups of season `year`, in store order.
pub open spec fn year_ledger_of(schedules: Seq<ScheduleModel>, year: int) -> Seq<Matchup> {
    year_ledger_prefix(schedules, year, schedules.len() as int)
}

impl Store {
    /// The models of this store's schedules.
    pub open spec fn sch(self) -> Seq<ScheduleModel> {
        models_of(self.schedules@)
    }

    /// Well-formedness of the whole store.
    pub open spec fn wf(self) -> bool {
        &&& leagues_wf(self.leagues@)
        &&& tiers_wf(self.tiers@)
        &&& teams_wf(self.teams@)
        &&& schedules_wf(self.sch())
    }

    /// A store holding no entities at all, at week `wk_no` of season `year`.
    pub fn new(schema_ver: i32, year: i32, wk_no: i32) -> (s: Store)
        ensures
            s.wf(),
            s.leagues@ == Seq::<League>::empty(),
            s.tiers@ == Seq::<Tier>::empty(),
            s.teams@ == Seq::<Team>::empty(),
            s.sch() == Seq::<ScheduleModel>::empty(),
            s.game == (GameState { schema_ver, year, wk_no }),
    {
        let s = Store {
            leagues: Vec::new(),
            tiers: Vec::new(),
            teams: Vec::new(),
            schedules: Vec::new(),
            game: GameState { schema_ver, year, wk_no },
        };
        proof {
            assert(s.sch() =~= Seq::<ScheduleModel>::empty());
        }
        s
    }
}

/// The schedule index encoded in a matchup identifier.
pub open spec fn schedule_slot_of_id(id: int) -> int {
    (id - 1) / (MAX_FIXTURES as int)
}

/// The position within its schedule encoded in a matchup identifier.
pub open spec fn fixture_slot_of_id(id: int) -> int {
    (id - 1) % (MAX_FIXTURES as int)
}

/// `id` decodes to an existing matchup of `s`.
pub open spec fn id_located(s: Seq<ScheduleModel>, id: int) -> bool {
    &&& 1 <= id
    &&& schedule_slot_of_id(id) < s.len()
    &&& fixture_slot_of_id(id) < s[schedule_slot_of_id(id)].matchups.len()
}

impl Store {
    /// Replace the matchup at position `mi` of schedule index `si`.
    pub fn set_matchup(&mut self, si: usize, mi: usize, m: Matchup)
        requires
            si < old(self).schedules@.len(),
            mi < old(self).sch()[si as int].matchups.len(),
        ensures
            final(self).sch() == old(self).sch().update(
                si as int,
                ScheduleModel {
                    matchups: old(self).sch()[si as int].matchups.update(mi as int, m),
                    ..old(self).sch()[si as int]
                },
            ),
            final(self).leagues@ == old(self).leagues@,
            final(self).tiers@ == old(self).tiers@,
            final(self).teams@ == old(self).teams@,
            final(self).game == old(self).game,
    {
        let mut tmp = Schedule { id: 0, year: 0, tier_id: 0, league_id: 0, matchups: Vec::new() };
        self.schedules.set_and_swap(si, &mut tmp);
        tmp.matchups.set(mi, m);
        self.schedules.set_and_swap(si, &mut tmp);
        proof {
            assert(final(self).sch() =~= old(self).sch().update(
                si as int,
                ScheduleModel {
                    matchups: old(self).sch()[si as int].matchups.update(mi as int, m),
                    ..old(self).sch()[si as int]
                },
            ));
        }
    }

    /// Append a matchup to the schedule at index `si`.
    pub fn push_matchup(&mut self, si: usize, m: Matchup)
        requires
            si < old(self).schedules@.len(),
        ensures
            final(self).sch() == old(self).sch().update(
                si as int,
                ScheduleModel {
                    matchups: old(self).sch()[si as int].matchups.push(m),
                    ..old(self).sch()[si as int]
                },
            ),
            final(self).leagues@ == old(self).leagues@,
            final(self).tiers@ == old(self).tiers@,
            final(self).teams@ == old(self).teams@,
            final(self).game == old(self).game,
    {
        let mut tmp = Schedule { id: 0, year: 0, tier_id: 0, league_id: 0, matchups: Vec::new() };
        self.schedules.set_and_swap(si, &mut tmp);
        tmp.matchups.push(m);
        self.schedules.set_and_swap(si, &mut tmp);
        proof {
            assert(final(self).sch() =~= old(self).sch().update(
                si as int,
                ScheduleModel {
                    matchups: old(self).sch()[si as int].matchups.push(m),
                    ..old(self).sch()[si as int]
                },
            ));
        }
    }
}

/// A season's ledger never exceeds one full schedule per slot.
pub proof fn lemma_year_ledger_len(s: Seq<ScheduleModel>, y: int, si: int)
    requires
        schedules_wf(s),
        0 <= si <= s.len(),
    ensures
        0 <= year_ledger_prefix(s, y, si).len() <= si * (MAX_FIXTURES as int),
        year_ledger_prefix(s, y, si).len() <= 0x4000_0000,
    decreases si,
{
    if si > 0 {
        lemma_year_ledger_len(s, y, si - 1);
        assert((si - 1) * (MAX_FIXTURES as int) + (MAX_FIXTURES as int) == si * (
        MAX_FIXTURES as int)) by (nonlinear_arith);
        assert(si * (MAX_FIXTURES as int) <= (MAX_SCHEDULES as int) * (MAX_FIXTURES as int))
            by (nonlinear_arith)
            requires
                si <= MAX_SCHEDULES,
                0 <= si,
        ;
    }
}

/// Appending a fresh, empty schedule under the next dense identifier keeps
/// the schedule list well-formed.
pub proof fn lemma_schedules_wf_push(s: Seq<ScheduleModel>, sm: ScheduleModel)
    requires
        schedules_wf(s),
        s.len() < MAX_SCHEDULES,
        sm.id == s.len() + 1,
        sm.matchups.len() == 0,
    ensures
        schedules_wf(s.push(sm)),
{
    let s1 = s.push(sm);
    assert forall|a: int, b: int|
        0 <= a < s1.len() && 0 <= b < s1[a].matchups.len() implies (#[trigger] matchup_in(
        s1,
        a,
        b,
    )).id == a * (MAX_FIXTURES as int) + b + 1 && 1 <= matchup_in(s1, a, b).wk_no <= 0x4000_0000
        && scores_consistent(matchup_in(s1, a, b)) by {
        assert(a < s.len());
        assert(matchup_in(s1, a, b) == matchup_in(s, a, b));
        assert(matchup_in(s, a, b) == s[a].matchups[b]);
    }
}

/// Replacing the matchups of one schedule keeps the schedule list
/// well-formed, provided the new matchups carry the identifiers, week
/// numbers and score shape the invariant asks of that slot.
pub proof fn lemma_schedules_wf_set_matchups(s: Seq<ScheduleModel>, si: int, m2: Seq<Matchup>)
    requires
        schedules_wf(s),
        0 <= si < s.len(),
        m2.len() <= MAX_FIXTURES,
        forall|b: int|
            0 <= b < m2.len() ==> {
                let m = #[trigger] m2[b];
                &&& m.id == si * (MAX_FIXTURES as int) + b + 1
                &&& 1 <= m.wk_no <= 0x4000_0000
                &&& scores_consistent(m)
            },
    ensures
        schedules_wf(s.update(si, ScheduleModel { matchups: m2, ..s[si] })),
{
    let s1 = s.update(si, ScheduleModel { matchups: m2, ..s[si] });
    assert forall|a: int, b: int|
        0 <= a < s1.len() && 0 <= b < s1[a].matchups.len() implies (#[trigger] matchup_in(
        s1,
        a,
        b,
    )).id == a * (MAX_FIXTURES as int) + b + 1 && 1 <= matchup_in(s1, a, b).wk_no <= 0x4000_0000
        && scores_consistent(matchup_in(s1, a, b)) by {
        if a == si {
            assert(matchup_in(s1, a, b) == m2[b]);
        } else {
            assert(matchup_in(s1, a, b) == matchup_in(s, a, b));
            assert(matchup_in(s, a, b) == s[a].matchups[b]);
        }
    }
}

/// Every element of a filtered sequence comes from the original.
pub proof fn lemma_filter_mem<A>(s: Seq<A>, pred: spec_fn(A) -> bool, j: int)
    requires
        0 <= j < s.filter(pred).len(),
    ensures
        exists|i: int| 0 <= i < s.len() && #[trigger] s[i] == s.filter(pred)[j],
    decreases s.len(),
{
    reveal(Seq::filter);
    if s.len() > 0 {
        let sub = s.drop_last().filter(pred);
        if j < sub.len() {
            lemma_filter_mem(s.drop_last(), pred, j);
            let i = choose|i: int|
                0 <= i < s.drop_last().len() && #[trigger] s.drop_last()[i] == sub[j];
            assert(s[i] == sub[j]);
        } else {
            assert(s[s.len() - 1] == s.filter(pred)[j]);
        }
    }
}

/// When the selected positions form one contiguous block, the filtered
/// sequence is exactly that block long.
pub proof fn lemma_filter_count_block<A>(s: Seq<A>, pred: spec_fn(A) -> bool, lo: int, hi: int)
    requires
        0 <= lo <= hi <= s.len(),
        forall|j: int| 0 <= j < s.len() ==> (pred(#[trigger] s[j]) <==> lo <= j < hi),
    ensures
        s.filter(pred).len() == hi - lo,
    decreases s.len(),
{
    reveal(Seq::filter);
    if s.len() == 0 {
    } else {
        let d = s.drop_last();
        if pred(s.last()) {
            assert(hi == s.len() && lo < hi);
            lemma_filter_count_block(d, pred, lo, hi - 1);
        } else {
            if hi == s.len() {
                assert(lo == hi);
                lemma_filter_count_block(d, pred, d.len() as int, d.len() as int);
            } else {
                lemma_filter_count_block(d, pred, lo, hi);
            }
        }
    }
}

/// Filtering a sequence extended by one element keeps the old selection and
/// appends the new element exactly when it satisfies the predicate.
pub proof fn lemma_filter_push<A>(s: Seq<A>, x: A, pred: spec_fn(A) -> bool)
    ensures
        s.push(x).filter(pred) == if pred(x) {
            s.filter(pred).push(x)
        } else {
            s.filter(pred)
        },
{
    reveal(Seq::filter);
    assert(s.push(x).drop_last() =~= s);
    assert(s.push(x).last() == x);
}

} // verus!
