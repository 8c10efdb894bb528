//! Leagues and the aggregated league view handed to callers.

use crate::models::tier::Tier;
use crate::store::{lemma_filter_push, Store};
use crate::Error;
use vstd::prelude::*;

verus! {

/// A league, owning zero or more tiers.
#[derive(Debug)]
pub struct League {
    pub id: i32,
    pub name: String,
    pub abbr: String,
}

impl Clone for League {
    fn clone(&self) -> (r: Self)
        ensures
            r == *self,
    {
        League { id: self.id, name: self.name.clone(), abbr: self.abbr.clone() }
    }
}

/// The tiers of league `league_id`, in store order.
pub open spec fn tiers_of(store: Store, league_id: i32) -> Seq<Tier> {
    store.tiers@.filter(|t: Tier| t.league_id == league_id)
}

impl League {
    /// Store a new league under the next free identifier and return it.
    pub fn create(store: &mut Store, name: String, abbr: String) -> (l: League)
        requires
            old(store).wf(),
            old(store).leagues@.len() < crate::store::MAX_ENTITIES,
        ensures
            final(store).wf(),
            l == (League { id: (old(store).leagues@.len() + 1) as i32, name, abbr }),
            final(store).leagues@ == old(store).leagues@.push(l),
            final(store).tiers@ == old(store).tiers@,
            final(store).teams@ == old(store).teams@,
            final(store).sch() == old(store).sch(),
            final(store).game == old(store).game,
    {
        let id: i32 = (store.leagues.len() + 1) as i32;
        let l = League { id, name, abbr };
        let r = l.clone();
        store.leagues.push(l);
        r
    }

    /// Look a league up by identifier.
    pub fn get(store: &Store, id: &i32) -> (r: Result<League, Error>)
        requires
            store.wf(),
        ensures
            match r {
                Ok(l) => 1 <= *id <= store.leagues@.len() && l == store.leagues@[*id - 1],
                Err(e) => e == Error::NotFound && !(1 <= *id <= store.leagues@.len()),
            },
    {
        if 1 <= *id && *id as usize <= store.leagues.len() {
            Ok(store.leagues[(*id - 1) as usize].clone())
        } else {
            Err(Error::NotFound)
        }
    }

    /// Look up the first league called `name`.
    pub fn get_by_name(store: &Store, name: String) -> (r: Result<League, Error>)
        requires
            store.wf(),
        ensures
            match r {
                Ok(l) => exists|i: int|
                    {
                        &&& 0 <= i < store.leagues@.len()
                        &&& #[trigger] store.leagues@[i] == l
                        &&& l.name@ == name@
                        &&& forall|j: int|
                            0 <= j < i ==> (#[trigger] store.leagues@[j]).name@ != name@
                    },
                Err(e) => e == Error::NotFound && forall|i: int|
                    0 <= i < store.leagues@.len() ==> (#[trigger] store.leagues@[i]).name@
                        != name@,
            },
    {
        let mut i: usize = 0;
        while i < store.leagues.len()
            invariant
                store.wf(),
                i <= store.leagues@.len(),
                forall|j: int| 0 <= j < i ==> (#[trigger] store.leagues@[j]).name@ != name@,
            decreases store.leagues@.len() - i,
        {
            if store.leagues[i].name == name {
                return Ok(store.leagues[i].clone());
            }
            i = i + 1;
        }
        Err(Error::NotFound)
    }

    /// All leagues, in store order.
    pub fn get_all(store: &Store) -> (r: Vec<League>)
        requires
            store.wf(),
        ensures
            r@ == store.leagues@,
    {
        let mut out: Vec<League> = Vec::new();
        let mut i: usize = 0;
        while i < store.leagues.len()
            invariant
                i <= store.leagues@.len(),
                out@ == store.leagues@.subrange(0, i as int),
            decreases store.leagues@.len() - i,
        {
            out.push(store.leagues[i].clone());
            proof {
                assert(out@ =~= store.leagues@.subrange(0, i + 1));
            }
            i = i + 1;
        }
        proof {
            assert(out@ =~= store.leagues@);
        }
        out
    }

    /// The tiers owned by this league, in store order.
    pub fn get_tiers(&self, store: &Store) -> (r: Vec<Tier>)
        requires
            store.wf(),
        ensures
            r@ == tiers_of(*store, self.id),
    {
        let mut out: Vec<Tier> = Vec::new();
        let mut i: usize = 0;
        while i < store.tiers.len()
            invariant
                i <= store.tiers@.len(),
                out@ == store.tiers@.subrange(0, i as int).filter(
                    |t: Tier| t.league_id == self.id,
                ),
            decreases store.tiers@.len() - i,
        {
            proof {
                assert(store.tiers@.subrange(0, i + 1) =~= store.tiers@.subrange(0, i as int).push(
                    store.tiers@[i as int],
                ));
                lemma_filter_push(
                    store.tiers@.subrange(0, i as int),
                    store.tiers@[i as int],
                    |t: Tier| t.league_id == self.id,
                );
            }
            if store.tiers[i].league_id == self.id {
                out.push(store.tiers[i].clone());
            }
            i = i + 1;
        }
        proof {
            assert(store.tiers@.subrange(0, store.tiers@.len() as int) =~= store.tiers@);
        }
        out
    }
}

/// A league together with its tiers, as handed outward.
#[derive(Debug)]
pub struct LeagueInfo {
    pub id: i32,
    pub name: String,
    pub abbr: String,
    pub tiers: Vec<Tier>,
}

impl LeagueInfo {
    /// Resolve one league and collect its tiers.
    pub fn get(store: &Store, league_id: i32) -> (r: Result<LeagueInfo, Error>)
        requires
            store.wf(),
        ensures
            match r {
                Ok(info) => {
                    &&& 1 <= league_id <= store.leagues@.len()
                    &&& info.id == store.leagues@[league_id - 1].id
                    &&& info.name@ == store.leagues@[league_id - 1].name@
                    &&& info.abbr@ == store.leagues@[league_id - 1].abbr@
                    &&& info.tiers@ == tiers_of(*store, league_id)
                },
                Err(e) => e == Error::NotFound && !(1 <= league_id <= store.leagues@.len()),
            },
    {
        let league = League::get(store, &league_id)?;
        let tiers = league.get_tiers(store);
        let League { id, name, abbr } = league;
        Ok(LeagueInfo { id, name, abbr, tiers })
    }

    /// Resolve every league with its tiers, in store order.
    pub fn get_all(store: &Store) -> (r: Vec<LeagueInfo>)
        requires
            store.wf(),
        ensures
            r@.len() == store.leagues@.len(),
            forall|i: int|
                0 <= i < r@.len() ==> {
                    &&& (#[trigger] r@[i]).id == store.leagues@[i].id
                    &&& r@[i].name@ == store.leagues@[i].name@
                    &&& r@[i].abbr@ == store.leagues@[i].abbr@
                    &&& r@[i].tiers@ == tiers_of(*store, store.leagues@[i].id)
                },
    {
        let mut out: Vec<LeagueInfo> = Vec::new();
        let mut i: usize = 0;
        while i < store.leagues.len()
            invariant
                store.wf(),
                i <= store.leagues@.len(),
                out@.len() == i,
                forall|j: int|
                    0 <= j < i ==> {
                        &&& (#[trigger] out@[j]).id == store.leagues@[j].id
                        &&& out@[j].name@ == store.leagues@[j].name@
                        &&& out@[j].abbr@ == store.leagues@[j].abbr@
                        &&& out@[j].tiers@ == tiers_of(*store, store.leagues@[j].id)
                    },
            decreases store.leagues@.len() - i,
        {
            let league_id: i32 = store.leagues[i].id;
            match LeagueInfo::get(store, league_id) {
                Ok(info) => {
                    out.push(info);
                }
                Err(_) => {
                    proof {
                        assert(false);
                    }
                }
            }
            i = i + 1;
        }
        out
    }
}

} // verus!
