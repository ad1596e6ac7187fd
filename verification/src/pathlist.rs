//! Path lists: lazy lists of walked paths to targets.

use vstd::prelude::*;
use crate::path::{Path, spec_apply};
use crate::play::{PathList, fire_round, fires_of, get_next_lambda, initial_path_state, next_stop, pick_after};
use crate::state::{State, StateView, StepView, room, sound};

verus! {

/// A lazy list of walked paths, asked always from the same state.
pub trait Pathlist {
    /// The list belongs to state `s`.
    spec fn fits(&self, s: StateView) -> bool;

    /// The next path from `s` that the robot survives, and the state it
    /// leads to.
    fn next_target_path(&mut self, s: &State) -> (res: Option<(State, Path)>)
        requires
            sound(s@),
            old(self).fits(s@),
        ensures
            final(self).fits(s@),
            res matches Some((s2, p)) ==> spec_apply(s@, p@, false) == StepView::Stepped(s2@) && sound(s2@)
                && room(s2@, 0),
    ;
}

/// The driver's fires make a path list: each next path is the one
/// `get_next_lambda` finds.
impl Pathlist for PathList {
    open spec fn fits(&self, s: StateView) -> bool {
        fires_of(self, s)
    }

    fn next_target_path(&mut self, s: &State) -> (res: Option<(State, Path)>)
        ensures
            final(self).easy is Some,
            final(self).easy->0.round@ == next_stop(s@, fire_round(old(self).easy)),
            res matches Some((s2, p)) ==> pick_after(s@, fire_round(old(self).easy)) == Some(p@),
            res is None ==> pick_after(s@, fire_round(old(self).easy)) is None,
    {
        get_next_lambda(s, self)
    }
}

/// A path list with no fire lit yet.
pub fn mk_bblums_pathlist() -> (l: PathList)
    ensures
        l.easy is None,
        l.aggressive is None,
{
    initial_path_state()
}

} // verus!
