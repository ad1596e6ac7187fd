//! The simplest engine: take the first path the finder offers, again and
//! again, until it offers none.

use vstd::prelude::*;
use crate::path::{Path, spec_apply};
use crate::path_find::{PathFind, finder_walks, first_walk};
use crate::play::lemma_apply_concat;
use crate::play::lemma_apply_score;
use crate::state::{Move, State, StateView, StepView, room, sound};

verus! {

/// The engine's settings: its path finder.
pub struct Settings {
    pub path_find: PathFind,
}

/// The engine with path finder `o`.
pub fn mk(o: PathFind) -> (s: Settings)
    ensures
        s.path_find == o,
{
    Settings { path_find: o }
}

/// The engine's moves with finder `f`: the first path found from `s`, then
/// the first one found from where it leads, and so on. (Each path costs
/// points, so the score falls with each one and the walk ends.)
pub open spec fn finder_run(f: PathFind, s: StateView) -> Seq<Move>
    decreases s.score + 0x1_0000_0000_0000,
{
    match first_walk(finder_walks(f, s)) {
        Some(p) => match spec_apply(s, p, false) {
            StepView::Stepped(s2) => if 0 <= s2.score + 0x1_0000_0000_0000 < s.score + 0x1_0000_0000_0000 {
                p + finder_run(f, s2)
            } else {
                Seq::empty()
            },
            _ => Seq::empty(),
        },
        None => Seq::empty(),
    }
}

/// What is left of the walk once the finder answered `result`.
pub open spec fn walk_rest(f: PathFind, result: Option<(State, Path)>) -> Seq<Move> {
    match result {
        Some((ns, p)) => p@ + finder_run(f, ns@),
        None => Seq::empty(),
    }
}

impl Settings {
    /// The moves of the first path found, then of the first path found from
    /// where it leads, and so on until the finder offers none.
    pub fn get_path(&self, s: State) -> (moves: Vec<Move>)
        requires
            sound(s@),
            room(s@, 0),
        ensures
            exists|end: StateView| spec_apply(s@, moves@, false) == StepView::Stepped(end) && sound(end),
            moves@ == finder_run(self.path_find, s@),
    {
        let mut cur = s.copy();
        let mut g = self.path_find.get_paths(&cur);
        let mut result = g.next();
        let mut fullpath: Vec<Move> = Vec::new();
        proof {
            assert(spec_apply(s@, fullpath@, false) == StepView::Stepped(cur@));
            lemma_walk_step(self.path_find, cur@, result);
            assert(fullpath@ + walk_rest(self.path_find, result) =~= walk_rest(self.path_find, result));
        }
        while result.is_some()
            invariant
                sound(cur@),
                room(cur@, 0),
                spec_apply(s@, fullpath@, false) == StepView::Stepped(cur@),
                crate::path_find::walked(cur@, result),
                finder_run(self.path_find, s@) == fullpath@ + walk_rest(self.path_find, result),
                finder_run(self.path_find, cur@) == walk_rest(self.path_find, result),
            decreases cur.score + 0x1_0000_0000_0000,
        {
            let (newstate, mut path) = result.unwrap();
            let ghost a = fullpath@;
            let ghost b = path@;
            fullpath.append(&mut path);
            proof {
                assert(fullpath@ == a + b);
                lemma_apply_concat(s@, a, b, false);
                lemma_apply_score(cur@, b, false);
            }
            cur = newstate;
            let mut g2 = self.path_find.get_paths(&cur);
            result = g2.next();
            proof {
                lemma_walk_step(self.path_find, cur@, result);
                assert(a + (b + walk_rest(self.path_find, result)) =~= fullpath@ + walk_rest(self.path_find, result));
            }
        }
        proof {
            assert(fullpath@ + walk_rest(self.path_find, result) =~= fullpath@);
        }
        fullpath
    }
}

/// A walk from a state goes on as the first path a fresh generator hands
/// out says.
proof fn lemma_walk_step(f: PathFind, s: StateView, result: Option<(State, Path)>)
    requires
        sound(s),
        room(s, 0),
        first_walk(finder_walks(f, s)) == match result {
            Some((s2, p)) => Some(p@),
            None => None,
        },
        crate::path_find::walked(s, result),
    ensures
        finder_run(f, s) == walk_rest(f, result),
{
    if let Some((ns, p)) = result {
        lemma_apply_score(s, p@, false);
    }
}

} // verus!
