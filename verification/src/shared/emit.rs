//! Outward notifications: the events raised after a mutation commits, and
//! their wire names.

use vstd::prelude::*;
use vstd::string::StringExecFns;

verus! {

/// The notifications raised outward; none is consumed internally.
#[derive(Clone, Copy, Debug, PartialEq, Eq, Structural)]
pub enum EmitMsg {
    GameWillRestart,
    GameDidRestart,
    WeekDidAdvance,
}

/// Sends `EmitMsg` values outward; the transport is the caller's concern.
pub struct Emitter;

impl EmitMsg {
    /// The wire name of this event: its snake_case serialization as a JSON
    /// string, quotes included, exactly as handed to the event transport.
    pub fn event_name(&self) -> (r: String)
        ensures
            *self == EmitMsg::GameWillRestart ==> r@ == "\"game_will_restart\""@,
            *self == EmitMsg::GameDidRestart ==> r@ == "\"game_did_restart\""@,
            *self == EmitMsg::WeekDidAdvance ==> r@ == "\"week_did_advance\""@,
    {
        match self {
            EmitMsg::GameWillRestart => String::from_str("\"game_will_restart\""),
            EmitMsg::GameDidRestart => String::from_str("\"game_did_restart\""),
            EmitMsg::WeekDidAdvance => String::from_str("\"week_did_advance\""),
        }
    }
}

} // verus!
