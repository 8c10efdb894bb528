//! Tiers: competitive divisions within a league.

use crate::store::Store;
use crate::Error;
use vstd::prelude::*;

verus! {

/// A competitive level within a League, owning a roster of Teams.
#[derive(Debug)]
pub struct Tier {
    pub id: i32,
    pub name: String,
    pub rank: i32,
    pub league_id: i32,
}

impl Clone for Tier {
    fn clone(&self) -> (r: Self)
        ensures
            r == *self,
    {
        Tier {
            id: self.id,
            name: self.name.clone(),
            rank: self.rank,
            league_id: self.league_id,
        }
    }
}

impl Tier {
    /// Store a new tier under the next free identifier and return it.
    pub fn create(store: &mut Store, name: String, rank: i32, league_id: i32) -> (t: Tier)
        requires
            old(store).wf(),
            old(store).tiers@.len() < crate::store::MAX_ENTITIES,
        ensures
            final(store).wf(),
            t == (Tier { id: (old(store).tiers@.len() + 1) as i32, name, rank, league_id }),
            final(store).tiers@ == old(store).tiers@.push(t),
            final(store).leagues@ == old(store).leagues@,
            final(store).teams@ == old(store).teams@,
            final(store).sch() == old(store).sch(),
            final(store).game == old(store).game,
    {
        let id: i32 = (store.tiers.len() + 1) as i32;
        let t = Tier { id, name, rank, league_id };
        let r = t.clone();
        store.tiers.push(t);
        r
    }

    /// Look a tier up by identifier.
    pub fn get(store: &Store, id: &i32) -> (r: Result<Tier, Error>)
        requires
            store.wf(),
        ensures
            match r {
                Ok(t) => 1 <= *id <= store.tiers@.len() && t == store.tiers@[*id - 1],
                Err(e) => e == Error::NotFound && !(1 <= *id <= store.tiers@.len()),
            },
    {
        if 1 <= *id && *id as usize <= store.tiers.len() {
            Ok(store.tiers[(*id - 1) as usize].clone())
        } else {
            Err(Error::NotFound)
        }
    }

    /// Look up the first tier of league `league_id` called `name`.
    pub fn get_by_name(store: &Store, name: String, league_id: i32) -> (r: Result<Tier, Error>)
        requires
            store.wf(),
        ensures
            match r {
                Ok(t) => exists|i: int|
                    {
                        &&& 0 <= i < store.tiers@.len()
                        &&& #[trigger] store.tiers@[i] == t
                        &&& t.name@ == name@
                        &&& t.league_id == league_id
                        &&& forall|j: int|
                            0 <= j < i ==> !((#[trigger] store.tiers@[j]).name@ == name@
                                && store.tiers@[j].league_id == league_id)
                    },
                Err(e) => e == Error::NotFound && forall|i: int|
                    0 <= i < store.tiers@.len() ==> !((#[trigger] store.tiers@[i]).name@ == name@
                        && store.tiers@[i].league_id == league_id),
            },
    {
        let mut i: usize = 0;
        while i < store.tiers.len()
            invariant
                store.wf(),
                i <= store.tiers@.len(),
                forall|j: int|
                    0 <= j < i ==> !((#[trigger] store.tiers@[j]).name@ == name@
                        && store.tiers@[j].league_id == league_id),
            decreases store.tiers@.len() - i,
        {
            if store.tiers[i].league_id == league_id && store.tiers[i].name == name {
                return Ok(store.tiers[i].clone());
            }
            i = i + 1;
        }
        Err(Error::NotFound)
    }
}

} // verus!
