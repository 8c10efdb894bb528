//! The singleton control record: schema version, current season year and
//! current week number.

use crate::store::Store;
use vstd::prelude::*;

verus! {

/// The one control record of the whole process; only the Week Controller
/// mutates it.
#[derive(Clone, Copy, Debug, PartialEq, Eq, Structural)]
pub struct GameState {
    pub schema_ver: i32,
    pub year: i32,
    pub wk_no: i32,
}

impl GameState {
    /// Read the control record.
    pub fn get(store: &Store) -> (g: GameState)
        ensures
            g == store.game,
    {
        store.game
    }

    /// Overwrite the current week number, leaving everything else as it was.
    pub fn set_week(store: &mut Store, wk: i32)
        requires
            old(store).wf(),
        ensures
            final(store).wf(),
            final(store).game == (GameState { wk_no: wk, ..old(store).game }),
            final(store).leagues@ == old(store).leagues@,
            final(store).tiers@ == old(store).tiers@,
            final(store).teams@ == old(store).teams@,
            final(store).sch() == old(store).sch(),
    {
        store.game.wk_no = wk;
    }
}

} // verus!
