//! Things the path finder routes to or through: lambdas, razors and open
//! lifts to go to, and patterns to go through.

use vstd::prelude::*;
use vstd::wrapping::usize_specs;
use vstd::wrapping::i64_specs;
use crate::path::{Path, Target};
use crate::pattern::Pat;
use crate::state::{Coord, Move};

verus! {

/// Something to go through: a pattern laid with its robot square on a
/// position.
pub enum ViaThing {
    Pattern(Coord, Pat),
}

/// Where traversing a pattern laid on `c` leaves the robot (as unsigned
/// numbers, which wrap).
pub open spec fn pattern_exit(c: Coord, off_r: usize, off_c: usize, off_r_dest: usize, off_c_dest: usize) -> Coord {
    (
        usize_specs::wrapping_add(c.0, usize_specs::wrapping_sub(off_c_dest, off_c)),
        usize_specs::wrapping_sub(c.1, usize_specs::wrapping_sub(off_r_dest, off_r)),
    )
}

/// Going through a pattern costs its cost: its score is the cost negated (as
/// a signed number, which wraps).
impl Target for ViaThing {
    open spec fn spec_coord(&self) -> Coord {
        match self {
            ViaThing::Pattern(l, _) => *l,
        }
    }

    open spec fn spec_score(&self) -> i64 {
        match self {
            ViaThing::Pattern(_, pat) => i64_specs::wrapping_sub(0, pat.cost as i64),
        }
    }

    open spec fn spec_traverse(&self) -> (Coord, Seq<Move>) {
        match self {
            ViaThing::Pattern(c, p) => (
                pattern_exit(*c, p.off_r, p.off_c, p.off_r_dest, p.off_c_dest),
                p.cmd@,
            ),
        }
    }

    fn coord(&self) -> (c: Coord) {
        match self {
            ViaThing::Pattern(l, _) => *l,
        }
    }

    fn score(&self) -> (s: i64) {
        match self {
            ViaThing::Pattern(_, pat) => 0i64.wrapping_sub(pat.cost as i64),
        }
    }

    fn traverse(&self) -> (r: (Coord, Path)) {
        match self {
            ViaThing::Pattern(c, p) => {
                let (x, y) = *c;
                let fin_pos = (
                    x.wrapping_add(p.off_c_dest.wrapping_sub(p.off_c)),
                    y.wrapping_sub(p.off_r_dest.wrapping_sub(p.off_r)),
                );
                (fin_pos, p.cmd.clone())
            },
        }
    }
}

/// Something to go to.
#[derive(Clone, Copy, Debug)]
pub enum GotoThing {
    Lambda(Coord),
    Razor(Coord),
    OpenLift(Coord),
}

/// A lambda is worth 25, a razor 5 and the open lift 9999; going to any of
/// them leaves the robot there.
impl Target for GotoThing {
    open spec fn spec_coord(&self) -> Coord {
        match self {
            GotoThing::Lambda(l) => *l,
            GotoThing::Razor(l) => *l,
            GotoThing::OpenLift(l) => *l,
        }
    }

    open spec fn spec_score(&self) -> i64 {
        match self {
            GotoThing::Lambda(_) => 25,
            GotoThing::Razor(_) => 5,
            GotoThing::OpenLift(_) => 9999,
        }
    }

    open spec fn spec_traverse(&self) -> (Coord, Seq<Move>) {
        (self.spec_coord(), Seq::empty())
    }

    fn coord(&self) -> (c: Coord) {
        match self {
            GotoThing::Lambda(l) => *l,
            GotoThing::Razor(l) => *l,
            GotoThing::OpenLift(l) => *l,
        }
    }

    fn score(&self) -> (s: i64) {
        match self {
            GotoThing::Lambda(_) => 25,
            GotoThing::Razor(_) => 5,
            GotoThing::OpenLift(_) => 9999,
        }
    }

    fn traverse(&self) -> (r: (Coord, Path)) {
        (self.coord(), Vec::new())
    }
}

} // verus!
