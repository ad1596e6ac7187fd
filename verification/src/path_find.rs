//! Path finders: each hands out, one at a time, paths from a state that the
//! robot survives, with the state each leads to.

use vstd::prelude::*;
use crate::astar;
use crate::brushfire;
use crate::path::{Path, spec_apply};
use crate::play::{fire_round, lambda_dests};
use crate::precise::{PreciseGen, precise_ok, precise_walks};
use crate::state::{Move, State, StateView, StepView, coord_cells, lambda_coords, room, sound};

verus! {

/// What a path finder hands out from `s`: a path of at least one move that,
/// played from `s`, lets the game go on in a sound state with room left.
pub open spec fn walked(s: StateView, res: Option<(State, Path)>) -> bool {
    res matches Some((s2, p)) ==> {
        &&& p@.len() >= 1
        &&& spec_apply(s, p@, false) == StepView::Stepped(s2@)
        &&& sound(s2@)
        &&& room(s2@, 0)
    }
}

/// The first of a list of paths, if any.
pub open spec fn first_walk(w: Seq<Seq<Move>>) -> Option<Seq<Move>> {
    if w.len() > 0 {
        Some(w[0])
    } else {
        None
    }
}

/// The paths a base generator still hands out, one after the other until it
/// runs dry.
pub open spec fn base_walks(b: BaseGen) -> Seq<Seq<Move>> {
    match b {
        BaseGen::Brushfire(p) => brushfire::bb_walks(p.s@, fire_round(p.it.pathstate.easy), p.it.targets@),
        BaseGen::Astar(p) => astar::astar_walks(p.s@, p.targets@),
    }
}

/// The paths a fresh generator of base finder `f` hands out from `s`.
pub open spec fn fresh_walks(f: BaseFind, s: StateView) -> Seq<Seq<Move>> {
    match f {
        BaseFind::Brushfire => brushfire::bb_walks(s, 0, lambda_dests(s.grid)),
        BaseFind::Astar => astar::astar_walks(
            s,
            astar::lambda_queue((s.robot.0 as usize, s.robot.1 as usize), lambda_coords(coord_cells(s.grid))),
        ),
    }
}

/// The paths a generator still hands out, one after the other until it
/// runs dry.
pub open spec fn gen_walks(g: PathGen) -> Seq<Seq<Move>> {
    match g {
        PathGen::Base(b) => base_walks(b),
        PathGen::Precise(p) => precise_walks(p.base, p.s@, base_walks(p.inner)),
    }
}

/// The paths a fresh generator of finder `f` hands out from `s`.
pub open spec fn finder_walks(f: PathFind, s: StateView) -> Seq<Seq<Move>> {
    match f {
        PathFind::Brushfire => fresh_walks(BaseFind::Brushfire, s),
        PathFind::Astar => fresh_walks(BaseFind::Astar, s),
        PathFind::Precise(b) => precise_walks(b, s, fresh_walks(b, s)),
    }
}

/// A path finder that finds its paths itself.
#[derive(Clone, Copy)]
pub enum BaseFind {
    Brushfire,
    Astar,
}

/// A path finder: the brushfire, A*, or one of them made precise (its paths
/// played strictly, and continued past a move that would fail).
#[derive(Clone, Copy)]
pub enum PathFind {
    Brushfire,
    Astar,
    Precise(BaseFind),
}

/// The paths a base finder hands out from one state.
pub enum BaseGen {
    Brushfire(brushfire::Paths),
    Astar(astar::Paths),
}

/// The paths a finder hands out from one state.
pub enum PathGen {
    Base(BaseGen),
    Precise(PreciseGen),
}

impl BaseGen {
    /// How many more paths the generator may hand out, at most.
    pub open spec fn measure(&self) -> nat {
        match self {
            BaseGen::Brushfire(p) => brushfire::fire_measure(p.it.pathstate.easy, p.s@.grid) + brushfire::present(
                p.it.targets@,
            ),
            BaseGen::Astar(p) => p.targets@.len(),
        }
    }

    /// The state the paths start from.
    pub open spec fn start(&self) -> StateView {
        match self {
            BaseGen::Brushfire(p) => p.s@,
            BaseGen::Astar(p) => p.s@,
        }
    }

    /// The generator's state is sound and its own.
    pub open spec fn ok(&self) -> bool {
        match self {
            BaseGen::Brushfire(p) => brushfire::paths_ok(p),
            BaseGen::Astar(p) => sound(p.s@) && p.targets.wf(),
        }
    }

    /// The next path, walked.
    pub fn next(&mut self) -> (res: Option<(State, Path)>)
        requires
            old(self).ok(),
        ensures
            final(self).ok(),
            final(self).start() == old(self).start(),
            walked(old(self).start(), res),
            res is Some ==> final(self).measure() < old(self).measure(),
            base_walks(*old(self)) == match res {
                Some((s2, p)) => seq![p@] + base_walks(*final(self)),
                None => Seq::<Seq<Move>>::empty(),
            },
    {
        match self {
            BaseGen::Brushfire(p) => {
                p.next()
            },
            BaseGen::Astar(p) => p.next(),
        }
    }
}

impl BaseFind {
    /// The generator of this finder's paths from `s`.
    pub fn get_paths(&self, s: &State) -> (g: BaseGen)
        requires
            sound(s@),
        ensures
            g.ok(),
            g.start() == s@,
            base_walks(g) == fresh_walks(*self, s@),
    {
        match self {
            BaseFind::Brushfire => BaseGen::Brushfire(brushfire::get_paths(s)),
            BaseFind::Astar => BaseGen::Astar(astar::get_paths(s)),
        }
    }
}

impl PathGen {
    /// How many more paths the generator may hand out, at most.
    pub open spec fn measure(&self) -> nat {
        match self {
            PathGen::Base(b) => b.measure(),
            PathGen::Precise(p) => p.inner.measure(),
        }
    }

    /// The state the paths start from.
    pub open spec fn start(&self) -> StateView {
        match self {
            PathGen::Base(b) => b.start(),
            PathGen::Precise(p) => p.s@,
        }
    }

    /// The generator's state is sound and its own.
    pub open spec fn ok(&self) -> bool {
        match self {
            PathGen::Base(b) => b.ok(),
            PathGen::Precise(p) => precise_ok(p),
        }
    }

    /// The next path, walked.
    pub fn next(&mut self) -> (res: Option<(State, Path)>)
        requires
            old(self).ok(),
        ensures
            final(self).ok(),
            final(self).start() == old(self).start(),
            walked(old(self).start(), res),
            res is Some ==> final(self).measure() < old(self).measure(),
            gen_walks(*old(self)) == match res {
                Some((s2, p)) => seq![p@] + gen_walks(*final(self)),
                None => Seq::<Seq<Move>>::empty(),
            },
    {
        match self {
            PathGen::Base(b) => b.next(),
            PathGen::Precise(p) => p.next(),
        }
    }
}

impl PathFind {
    /// The generator of this finder's paths from `s`.
    pub fn get_paths(&self, s: &State) -> (g: PathGen)
        requires
            sound(s@),
            room(s@, 0),
        ensures
            g.ok(),
            g.start() == s@,
            gen_walks(g) == finder_walks(*self, s@),
    {
        match self {
            PathFind::Brushfire => PathGen::Base(BaseFind::Brushfire.get_paths(s)),
            PathFind::Astar => PathGen::Base(BaseFind::Astar.get_paths(s)),
            PathFind::Precise(b) => PathGen::Precise(crate::precise::get_paths(*b, s)),
        }
    }
}

} // verus!
