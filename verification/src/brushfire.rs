//! The brushfire path finder as a generator: it keeps its fire and the
//! lambdas not yet found, and hands out one walked path at a time, each to
//! a lambda it has not handed out before.

use vstd::prelude::*;
use crate::heuristics::path_aggr_weight;
use crate::path::{
    Path, PathState, apply, dest_within, fire_path, first_dest, found_spec, genpath_restart, genpaths, ic,
    any_dest_within, layer_nonempty, law_apply_keeps_sound, lemma_found, search_end, spec_apply, unseen, walk_end,
};
use crate::play::{
    PathList, fire_round, fires_of, initial_path_state, lambda_dests, path_aggressive, path_len, path_to_lambda, survives,
};
use crate::state::{
    Coord, Move, Square, State, StateView, StepResult, StepView, cell, coord_cells, inb, lambda_coords,
    lemma_lambdas_in_grid, room, sound,
};

verus! {

/// How far a fire may still spread: the squares it has not reached, or one
/// more than the grid holds when it is not lit.
pub open spec fn fire_measure(f: Option<PathState>, g: Seq<Seq<Square>>) -> nat {
    match f {
        None => (g.len() * g[0].len() + 1) as nat,
        Some(ps) => unseen(ps.visited@, g.len() as int),
    }
}

/// Every target present is a lambda of the grid.
pub open spec fn targets_ok(g: Seq<Seq<Square>>, t: Seq<Option<Coord>>) -> bool {
    forall|i: int|
        0 <= i < t.len() && (#[trigger] t[i]) is Some ==> inb(g, t[i].unwrap().0 as int, t[i].unwrap().1 as int)
            && cell(g, t[i].unwrap().0 as int, t[i].unwrap().1 as int) == Square::Lambda
}

/// No lambda is among the targets twice.
pub open spec fn distinct_targets(t: Seq<Option<Coord>>) -> bool {
    forall|i: int, j: int| 0 <= i < j < t.len() && (#[trigger] t[i]) is Some ==> t[i] != #[trigger] t[j]
}

/// The square a path from the robot of `s` ends on.
pub open spec fn end_coord(s: StateView, p: Seq<Move>) -> Coord {
    (walk_end(s.robot, p).0 as usize, walk_end(s.robot, p).1 as usize)
}

/// Clearing a target from a list that holds each once leaves it holding
/// each once, and no more holding that target.
proof fn lemma_clear_distinct(t: Seq<Option<Coord>>, c: Coord)
    requires
        distinct_targets(t),
    ensures
        distinct_targets(clear_first(t, Some(c))),
        !clear_first(t, Some(c)).contains(Some(c)),
{
    lemma_first_index_range(t, Some(c));
    lemma_clear_first(t, Some(c));
    let i = first_index(t, Some(c));
    let t2 = clear_first(t, Some(c));
    if t2.contains(Some(c)) {
        let j = choose|j: int| 0 <= j < t2.len() && t2[j] == Some(c);
        assert(t2[j] == t[j]);
        if i < t.len() {
            lemma_first_index_spec(t, Some(c));
            assert(t[i] == Some(c));
            assert(j != i);
            if j < i {
                assert(t[j] != t[i]);
            } else {
                assert(t[i] != t[j]);
            }
        } else {
            lemma_first_index_spec(t, Some(c));
        }
    }
}

/// The first index of `x` in `t`, or its length when it is absent.
pub open spec fn first_index(t: Seq<Option<Coord>>, x: Option<Coord>) -> int
    decreases t.len(),
{
    if t.len() == 0 {
        0
    } else if t[0] == x {
        0
    } else {
        1 + first_index(t.drop_first(), x)
    }
}

/// `t` with its first `x` cleared, if it holds one.
pub open spec fn clear_first(t: Seq<Option<Coord>>, x: Option<Coord>) -> Seq<Option<Coord>> {
    let i = first_index(t, x);
    if i < t.len() {
        t.update(i, None)
    } else {
        t
    }
}

proof fn lemma_first_index(t: Seq<Option<Coord>>, x: Option<Coord>, m: int)
    requires
        0 <= m <= t.len(),
        forall|k: int| 0 <= k < m ==> t[k] != x,
        m == t.len() || t[m] == x,
    ensures
        first_index(t, x) == m,
    decreases m,
{
    if m > 0 {
        lemma_first_index(t.drop_first(), x, m - 1);
    }
}

/// Clearing a target leaves the others as they were.
pub(crate) proof fn lemma_clear_first(t: Seq<Option<Coord>>, x: Option<Coord>)
    ensures
        clear_first(t, x).len() == t.len(),
        forall|i: int| 0 <= i < t.len() && (#[trigger] clear_first(t, x)[i]) is Some ==> clear_first(t, x)[i] == t[i],
{
    lemma_first_index_range(t, x);
}

proof fn lemma_first_index_spec(t: Seq<Option<Coord>>, x: Option<Coord>)
    ensures
        first_index(t, x) < t.len() ==> t[first_index(t, x)] == x,
        forall|k: int| 0 <= k < first_index(t, x) && k < t.len() ==> t[k] != x,
    decreases t.len(),
{
    if t.len() > 0 && t[0] != x {
        let u = t.drop_first();
        lemma_first_index_spec(u, x);
        lemma_first_index_range(u, x);
        if first_index(t, x) < t.len() {
            assert(t[first_index(t, x)] == u[first_index(u, x)]);
        }
        assert forall|k: int| 0 <= k < first_index(t, x) && k < t.len() implies t[k] != x by {
            if k > 0 {
                assert(t[k] == u[k - 1]);
            }
        }
    }
}

proof fn lemma_first_index_range(t: Seq<Option<Coord>>, x: Option<Coord>)
    ensures
        0 <= first_index(t, x) <= t.len(),
    decreases t.len(),
{
    if t.len() > 0 && t[0] != x {
        lemma_first_index_range(t.drop_first(), x);
    }
}

/// How many targets are present.
pub open spec fn present(t: Seq<Option<Coord>>) -> nat
    decreases t.len(),
{
    if t.len() == 0 {
        0
    } else {
        present(t.drop_last()) + if t.last() is Some { 1nat } else { 0nat }
    }
}

pub(crate) proof fn lemma_present_update(t: Seq<Option<Coord>>, i: int)
    requires
        0 <= i < t.len(),
        t[i] is Some,
    ensures
        present(t.update(i, None)) + 1 == present(t),
    decreases t.len(),
{
    let u = t.update(i, None);
    if i < t.len() - 1 {
        lemma_present_update(t.drop_last(), i);
        assert(u.drop_last() =~= t.drop_last().update(i, None));
    } else {
        assert(u.drop_last() =~= t.drop_last());
    }
}

pub(crate) proof fn lemma_clear_found(t: Seq<Option<Coord>>, x: Coord)
    requires
        t.contains(Some(x)),
    ensures
        present(clear_first(t, Some(x))) + 1 == present(t),
{
    let m = choose|m: int| 0 <= m < t.len() && t[m] == Some(x);
    lemma_first_index_le(t, Some(x), m);
    let i = first_index(t, Some(x));
    lemma_present_update(t, i);
}

pub(crate) proof fn lemma_first_index_le(t: Seq<Option<Coord>>, x: Option<Coord>, m: int)
    requires
        0 <= m < t.len(),
        t[m] == x,
    ensures
        0 <= first_index(t, x) <= m,
        t[first_index(t, x)] == x,
    decreases m,
{
    if t[0] != x {
        lemma_first_index_le(t.drop_first(), x, m - 1);
    }
}

pub(crate) proof fn lemma_present_all(t: Seq<Option<Coord>>)
    ensures
        present(t) <= t.len(),
    decreases t.len(),
{
    if t.len() > 0 {
        lemma_present_all(t.drop_last());
    }
}

/// A path found, as a sequence of moves.
pub open spec fn opt_view(e: Option<Path>) -> Option<Seq<Move>> {
    match e {
        Some(p) => Some(p@),
        None => None,
    }
}

/// What the fire, resumed from round `from`, answers for targets `t`: the
/// first target within reach in the round its search ends, with the path
/// the fire took to it; nothing when it burns out with no target in reach.
#[verifier::opaque]
pub open spec fn bb_pick(g: Seq<Seq<Square>>, src: (int, int), t: Seq<Option<Coord>>, from: nat) -> Option<(Seq<Move>, Coord)> {
    let r = search_end(g, src, t, from);
    if any_dest_within(g, src, t, r) {
        let c = t[first_dest(g, src, t, r)]->0;
        Some((fire_path(g, src, ic(c)), c))
    } else {
        None
    }
}

/// The search for the next lambda among targets `t` from `s`, its fire
/// resumed from round `from`: the round the fire ends in, the targets left,
/// and the path answered. Each path found takes its target off the list; a
/// path the robot does not survive is passed over for the next one.
pub open spec fn bb_next(s: StateView, from: nat, t: Seq<Option<Coord>>) -> (nat, Seq<Option<Coord>>, Option<Seq<Move>>)
    decreases present(t),
{
    let g = s.grid;
    let src = s.robot;
    let r = search_end(g, src, t, from);
    match bb_pick(g, src, t, from) {
        None => (r, t, None),
        Some((p, c)) => {
            let t2 = clear_first(t, Some(c));
            if survives(s, p) {
                (r, t2, Some(p))
            } else if present(t2) < present(t) {
                bb_next(s, r, t2)
            } else {
                (r, t2, None)
            }
        },
    }
}

/// Where the search goes after one answer of the fire: stop with `e` when it
/// is nothing or a path the robot survives, else search on.
pub open spec fn bb_after(s: StateView, r: nat, t: Seq<Option<Coord>>, e: Option<Seq<Move>>) -> (nat, Seq<Option<Coord>>, Option<Seq<Move>>) {
    match e {
        None => (r, t, None),
        Some(p) => if survives(s, p) {
            (r, t, Some(p))
        } else {
            bb_next(s, r, t)
        },
    }
}

/// One answer of the fire, from round `from` and targets `t`, to round `r`,
/// targets `t2` and path `e`.
pub open spec fn easy_step(
    g: Seq<Seq<Square>>,
    src: (int, int),
    from: nat,
    t: Seq<Option<Coord>>,
    r: nat,
    t2: Seq<Option<Coord>>,
    e: Option<Seq<Move>>,
) -> bool {
    &&& r == search_end(g, src, t, from)
    &&& (e is None <==> bb_pick(g, src, t, from) is None)
    &&& e is None ==> t2 == t
    &&& e matches Some(p) ==> bb_pick(g, src, t, from) matches Some((q, c)) && q == p && t2 == clear_first(t, Some(c))
        && t.contains(Some(c))
}

/// An answer of the fire takes its target off the list; no answer leaves
/// the list as it was.
proof fn lemma_easy_present(
    g: Seq<Seq<Square>>,
    src: (int, int),
    from: nat,
    t: Seq<Option<Coord>>,
    r: nat,
    t2: Seq<Option<Coord>>,
    e: Option<Seq<Move>>,
)
    requires
        easy_step(g, src, from, t, r, t2, e),
    ensures
        e is Some ==> present(t2) < present(t),
        present(t2) <= present(t),
{
    if let Some(p) = e {
        let c = (bb_pick(g, src, t, from)->0).1;
        lemma_clear_found(t, c);
    }
}

/// The search for the next lambda goes on as the fire's next answer says.
proof fn lemma_bb_next(s: StateView, from: nat, t: Seq<Option<Coord>>, r: nat, t2: Seq<Option<Coord>>, e: Option<Seq<Move>>)
    requires
        easy_step(s.grid, s.robot, from, t, r, t2, e),
    ensures
        bb_next(s, from, t) == bb_after(s, r, t2, e),
{
    if let Some(p) = e {
        let c = (bb_pick(s.grid, s.robot, t, from)->0).1;
        lemma_clear_found(t, c);
    }
}

/// The brushfire generator's state: its fires and the lambdas not yet
/// handed out.
pub struct BblumsPathlist {
    pub pathstate: PathList,
    pub targets: Vec<Option<Coord>>,
}

/// `f` applied to each element of `v`, in order.
pub fn map_mut<T: Copy, U, F: Fn(T) -> U>(v: &[T], f: F) -> (r: Vec<U>)
    requires
        forall|i: int| 0 <= i < v@.len() ==> f.requires((v@[i],)),
    ensures
        r@.len() == v@.len(),
        forall|i: int| 0 <= i < v@.len() ==> f.ensures((v@[i],), #[trigger] r@[i]),
{
    let mut result: Vec<U> = Vec::new();
    let mut i: usize = 0;
    while i < v.len()
        invariant
            i <= v@.len(),
            result@.len() == i,
            forall|k: int| 0 <= k < v@.len() ==> f.requires((v@[k],)),
            forall|k: int| 0 <= k < i ==> f.ensures((v@[k],), #[trigger] result@[k]),
        decreases v@.len() - i,
    {
        result.push(f(v[i]));
        i += 1;
    }
    result
}

/// A fresh generator for `s`: no fire lit, every lambda still to find.
pub fn mk_iter(s: &State) -> (it: BblumsPathlist)
    ensures
        it.pathstate.easy is None,
        it.pathstate.aggressive is None,
        it.targets@ == lambda_coords(coord_cells(s@.grid)).map_values(|c: Coord| Some(c)),
{
    let ls = s.grid.lambdas();
    let t = map_mut(ls.as_slice(), |x: Coord| -> (o: Option<Coord>) ensures o == Some(x) { Some(x) });
    proof {
        assert(t@ =~= lambda_coords(coord_cells(s@.grid)).map_values(|c: Coord| Some(c)));
    }
    BblumsPathlist { pathstate: initial_path_state(), targets: t }
}

/// The state after playing `ml` from `s` (not strictly), when the game goes
/// on; nothing when it ends (the outcome of a step that ends the game holds
/// no state) or when the counters have no room for the moves.
pub fn state_apply(s: &State, ml: &Path) -> (res: Option<State>)
    requires
        sound(s@),
    ensures
        res matches Some(s2) ==> room(s@, ml@.len() as int) && spec_apply(s@, ml@, false)
            == StepView::Stepped(s2@) && sound(s2@) && room(s2@, 0),
        room(s@, ml@.len() as int) && spec_apply(s@, ml@, false) is Stepped ==> res is Some,
{
    if !s.has_room(ml.len()) {
        return None;
    }
    proof {
        law_apply_keeps_sound(s@, ml@, false);
    }
    match apply(ml, s, false) {
        StepResult::Stepped(st) => Some(st),
        StepResult::Endgame(_) => None,
        StepResult::Oops => None,
    }
}

/// Clears the target the fire found from the list, and hands on its path.
fn process_pathres(x: Option<(Path, Coord)>, targets: &mut Vec<Option<Coord>>) -> (res: Option<Path>)
    ensures
        x matches Some((p, t)) ==> res == Some(p) && final(targets)@ == clear_first(old(targets)@, Some(t)),
        x is None ==> res is None && final(targets)@ == old(targets)@,
{
    let ghost xg = x;
    match x {
        Some((path, target_found)) => {
            let mut i: usize = 0;
            while i < targets.len()
                invariant
                    xg == x,
                    xg == Some((path, target_found)),
                    i <= targets@.len(),
                    targets@ == old(targets)@,
                    forall|k: int| 0 <= k < i ==> targets@[k] != Some(target_found),
                decreases targets@.len() - i,
            {
                if targets[i] == Some(target_found) {
                    proof {
                        lemma_first_index(targets@, Some(target_found), i as int);
                    }
                    targets.set(i, None);
                    return Some(path);
                }
                i += 1;
            }
            proof {
                lemma_first_index(targets@, Some(target_found), i as int);
            }
            Some(path)
        },
        None => None,
    }
}

/// Spreads the fire (lighting it at the robot if need be) until it reaches
/// a target or burns out; answers a shortest path to the target reached and
/// the target, which is a lambda of the grid among the targets.
pub(crate) fn fire_next(s: &State, fire: &mut Option<PathState>, targets: &Vec<Option<Coord>>) -> (res: Option<(Path, Coord)>)
    requires
        sound(s@),
        *old(fire) matches Some(ps) ==> ps.wf(s@.grid, s@.robot),
        targets_ok(s@.grid, targets@),
    ensures
        *final(fire) matches Some(ps) && ps.wf(s@.grid, s@.robot),
        res is None ==> !crate::path::layer_nonempty(s@.grid, s@.robot, (*final(fire))->0.round@),
        res is None ==> forall|i: int, k: nat| !#[trigger] dest_within(s@.grid, s@.robot, targets@, i, k),
        res matches Some((p, t)) ==> path_to_lambda(s@.grid, s@.robot, p@) && walk_end(s@.robot, p@)
            == ic(t) && targets@.contains(Some(t)),
        fire_measure(*final(fire), s@.grid) <= fire_measure(*old(fire), s@.grid),
        (*final(fire))->0.round@ == search_end(s@.grid, s@.robot, targets@, fire_round(*old(fire))),
        res is None <==> bb_pick(s@.grid, s@.robot, targets@, fire_round(*old(fire))) is None,
        res matches Some((p, t)) ==> bb_pick(s@.grid, s@.robot, targets@, fire_round(*old(fire))) == Some((p@, t)),
{
    let ghost g = s@.grid;
    let ghost src = s@.robot;
    let ghost f0 = *fire;
    proof {
        assert forall|i: int| 0 <= i < targets@.len() && (#[trigger] targets@[i]) is Some implies inb(
            g,
            targets@[i].unwrap().0 as int,
            targets@[i].unwrap().1 as int,
        ) by {}
    }
    let (pathres, stateres) = match fire.take() {
        Some(ps) => genpath_restart(&s.grid, s.robotpos, targets.as_slice(), ps),
        None => genpaths(&s.grid, s.robotpos, targets.as_slice()),
    };
    let ghost r = stateres.round@;
    let ghost t0 = targets@;
    *fire = Some(stateres);
    let ghost pr = pathres;
    proof {
        reveal(bb_pick);
        if f0 is None {
            let ps = fire->0;
            crate::path::lemma_unseen_bound(ps.visited@, g.len() as int, g[0].len() as int);
        }
        assert(src == ic(s.robotpos));
        if let Some((p, t)) = pr {
            assert(found_spec(g, src, t0, r, pr));
            let i = choose|i: int| {
                &&& #[trigger] dest_within(g, src, t0, i, r)
                &&& (forall|j: int| 0 <= j < i ==> !#[trigger] dest_within(g, src, t0, j, r))
                &&& t0[i] == Some(t)
                &&& crate::path::walk_ok(g, src, p@)
                &&& walk_end(src, p@) == ic(t)
                &&& crate::path::at_distance(g, src, ic(t), p@.len())
            };
            assert(t0[i] is Some);
            if p@.len() == 0 {
                assert(walk_end(src, p@) == src);
            }
            lemma_found(g, src, t0, r, p, t);
        }
    }
    pathres
}

/// Finds the next path, needing no unsafe move, to a lambda still among the
/// targets, and clears that lambda from them.
pub fn path_easy(s: &State, fire: &mut Option<PathState>, targets: &mut Vec<Option<Coord>>) -> (res: Option<Path>)
    requires
        sound(s@),
        *old(fire) matches Some(ps) ==> ps.wf(s@.grid, s@.robot),
        targets_ok(s@.grid, old(targets)@),
    ensures
        *final(fire) matches Some(ps) && ps.wf(s@.grid, s@.robot),
        targets_ok(s@.grid, final(targets)@),
        res is None ==> !crate::path::layer_nonempty(s@.grid, s@.robot, (*final(fire))->0.round@),
        res is None ==> forall|i: int, k: nat| !#[trigger] dest_within(s@.grid, s@.robot, old(targets)@, i, k),
        res is None ==> final(targets)@ == old(targets)@,
        res matches Some(p) ==> path_to_lambda(s@.grid, s@.robot, p@) && final(targets)@ == clear_first(
            old(targets)@,
            Some((walk_end(s@.robot, p@).0 as usize, walk_end(s@.robot, p@).1 as usize)),
        ),
        res matches Some(p) ==> old(targets)@.contains(Some(end_coord(s@, p@))),
        distinct_targets(old(targets)@) ==> distinct_targets(final(targets)@),
        distinct_targets(old(targets)@) ==> (res matches Some(p) ==> !final(targets)@.contains(
            Some(end_coord(s@, p@)),
        )),
        final(targets)@.len() == old(targets)@.len(),
        forall|i: int| 0 <= i < final(targets)@.len() && (#[trigger] final(targets)@[i]) is Some ==> final(targets)@[i] == old(targets)@[i],
        fire_measure(*final(fire), s@.grid) <= fire_measure(*old(fire), s@.grid),
        easy_step(
            s@.grid,
            s@.robot,
            fire_round(*old(fire)),
            old(targets)@,
            (*final(fire))->0.round@,
            final(targets)@,
            opt_view(res),
        ),
{
    let ghost t0 = targets@;
    let pathres = fire_next(s, fire, targets);
    let ghost pr = pathres;
    let res = process_pathres(pathres, targets);
    proof {
        lemma_targets_after(s@.grid, t0, pr, targets@);
        if let Some((p, t)) = pr {
            assert(end_coord(s@, p@) == t);
            lemma_clear_first(t0, Some(t));
            if distinct_targets(t0) {
                lemma_clear_distinct(t0, t);
            }
        }
    }
    res
}

/// Clearing a found target keeps the targets lambdas of the grid.
proof fn lemma_targets_after(g: Seq<Seq<Square>>, t0: Seq<Option<Coord>>, pr: Option<(Path, Coord)>, t1: Seq<Option<Coord>>)
    requires
        targets_ok(g, t0),
        pr matches Some((p, t)) ==> t1 == clear_first(t0, Some(t)),
        pr is None ==> t1 == t0,
    ensures
        targets_ok(g, t1),
{
    if let Some((p, t)) = pr {
        lemma_clear_first(t0, Some(t));
    }
    assert forall|i: int| 0 <= i < t1.len() && (#[trigger] t1[i]) is Some implies inb(
        g,
        t1[i].unwrap().0 as int,
        t1[i].unwrap().1 as int,
    ) && cell(g, t1[i].unwrap().0 as int, t1[i].unwrap().1 as int) == Square::Lambda by {
        assert(t0[i] == t1[i]);
    }
}

/// Finds a path to the next lambda still among the targets that the robot
/// survives, and walks it; a path that kills the robot is passed over for
/// the next one.
pub fn get_next_lambda(s: &State, bblum: &mut BblumsPathlist) -> (res: Option<(State, Path)>)
    requires
        sound(s@),
        fires_of(&old(bblum).pathstate, s@),
        targets_ok(s@.grid, old(bblum).targets@),
    ensures
        fires_of(&final(bblum).pathstate, s@),
        targets_ok(s@.grid, final(bblum).targets@),
        res matches Some((s2, p)) ==> {
            &&& path_to_lambda(s@.grid, s@.robot, p@)
            &&& room(s@, p@.len() as int)
            &&& spec_apply(s@, p@, false) == StepView::Stepped(s2@)
            &&& sound(s2@)
            &&& room(s2@, 0)
        },
        fire_measure(final(bblum).pathstate.easy, s@.grid) <= fire_measure(old(bblum).pathstate.easy, s@.grid),
        res is None ==> final(bblum).pathstate.easy is Some && !crate::path::layer_nonempty(
            s@.grid,
            s@.robot,
            final(bblum).pathstate.easy->0.round@,
        ),
        final(bblum).pathstate.easy is Some,
        res is Some ==> present(final(bblum).targets@) < present(old(bblum).targets@),
        res matches Some((s2, p)) ==> old(bblum).targets@.contains(Some(end_coord(s@, p@))),
        distinct_targets(old(bblum).targets@) ==> distinct_targets(final(bblum).targets@),
        distinct_targets(old(bblum).targets@) ==> (res matches Some((s2, p)) ==> !final(bblum).targets@.contains(
            Some(end_coord(s@, p@)),
        )),
        final(bblum).targets@.len() == old(bblum).targets@.len(),
        forall|i: int|
            0 <= i < final(bblum).targets@.len() && (#[trigger] final(bblum).targets@[i]) is Some
                ==> final(bblum).targets@[i] == old(bblum).targets@[i],
        bb_next(s@, fire_round(old(bblum).pathstate.easy), old(bblum).targets@) == (
            final(bblum).pathstate.easy->0.round@,
            final(bblum).targets@,
            match res {
                Some((s2, p)) => Some(p@),
                None => None,
            },
        ),
{
    let ghost m0 = fire_measure(bblum.pathstate.easy, s@.grid);
    let ghost r0 = fire_round(bblum.pathstate.easy);
    let ghost t0 = bblum.targets@;
    let mut easy = path_easy(s, &mut bblum.pathstate.easy, &mut bblum.targets);
    let mut aggressive = path_aggressive(s, &mut bblum.pathstate.aggressive);
    proof {
        lemma_bb_next(s@, r0, t0, bblum.pathstate.easy->0.round@, bblum.targets@, opt_view(easy));
        lemma_easy_present(s@.grid, s@.robot, r0, t0, bblum.pathstate.easy->0.round@, bblum.targets@, opt_view(easy));
    }
    loop
        invariant
            r0 == fire_round(old(bblum).pathstate.easy),
            t0 == old(bblum).targets@,
            bb_next(s@, r0, t0) == bb_after(s@, bblum.pathstate.easy->0.round@, bblum.targets@, opt_view(easy)),
            sound(s@),
            fires_of(&bblum.pathstate, s@),
            bblum.pathstate.easy is Some,
            targets_ok(s@.grid, bblum.targets@),
            aggressive is None,
            easy matches Some(p) ==> path_to_lambda(s@.grid, s@.robot, p@),
            m0 == fire_measure(old(bblum).pathstate.easy, s@.grid),
            fire_measure(bblum.pathstate.easy, s@.grid) <= m0,
            easy is None ==> !crate::path::layer_nonempty(s@.grid, s@.robot, bblum.pathstate.easy->0.round@),
            easy is Some ==> present(bblum.targets@) < present(t0),
            present(bblum.targets@) <= present(t0),
            bblum.targets@.len() == t0.len(),
            forall|i: int| 0 <= i < bblum.targets@.len() && (#[trigger] bblum.targets@[i]) is Some ==> bblum.targets@[i] == t0[i],
            distinct_targets(t0) ==> distinct_targets(bblum.targets@),
            easy matches Some(p) ==> t0.contains(Some(end_coord(s@, p@))),
            distinct_targets(t0) ==> (easy matches Some(p) ==> !bblum.targets@.contains(Some(end_coord(s@, p@)))),
        decreases (if easy is Some { present(bblum.targets@) + 1 } else { 0 }),
    {
        if aggressive.is_none() && easy.is_none() {
            return None;
        } else if easy.is_none() || (aggressive.is_some() && path_aggr_weight(
            path_len(aggressive.as_ref().unwrap()),
        ) < path_len(easy.as_ref().unwrap())) {
            let try_path = aggressive.unwrap();
            match state_apply(s, &try_path) {
                Some(ns) => {
                    return Some((ns, try_path));
                },
                None => {
                    aggressive = path_aggressive(s, &mut bblum.pathstate.aggressive);
                },
            }
        } else {
            let try_path = easy.unwrap();
            match state_apply(s, &try_path) {
                Some(ns) => {
                    return Some((ns, try_path));
                },
                None => {
                    let ghost r1 = bblum.pathstate.easy->0.round@;
                    let ghost t1 = bblum.targets@;
                    easy = path_easy(s, &mut bblum.pathstate.easy, &mut bblum.targets);
                    proof {
                        if easy is Some {
                            let c = end_coord(s@, easy->0@);
                            let j = choose|j: int| 0 <= j < t1.len() && t1[j] == Some(c);
                            assert(t1[j] is Some);
                            assert(t0[j] == Some(c));
                        }
                        lemma_bb_next(s@, r1, t1, bblum.pathstate.easy->0.round@, bblum.targets@, opt_view(easy));
                        lemma_easy_present(s@.grid, s@.robot, r1, t1, bblum.pathstate.easy->0.round@, bblum.targets@, opt_view(easy));
                    }
                },
            }
        }
    }
}

/// The paths a brushfire generator hands out from `s`, one after the other
/// until it runs dry, its fire resumed from round `from` with targets `t`.
/// (Each path takes a target off the list, so the list of paths ends.)
pub open spec fn bb_walks(s: StateView, from: nat, t: Seq<Option<Coord>>) -> Seq<Seq<Move>>
    decreases present(t),
{
    let x = bb_next(s, from, t);
    match x.2 {
        Some(p) => if present(x.1) < present(t) {
            seq![p] + bb_walks(s, x.0, x.1)
        } else {
            seq![p]
        },
        None => Seq::empty(),
    }
}

/// The first path a fresh brushfire generator hands out from `s`.
pub open spec fn brushfire_first(s: StateView) -> Option<Seq<Move>> {
    bb_next(s, 0, lambda_dests(s.grid)).2
}

/// Walking the first path a fresh generator finds from `s`, then the first
/// one found from where it leads, and so on: the moves, and the state where
/// they end. (Each path costs points, so the score falls with each one and
/// the walk ends.)
pub open spec fn brushfire_run(s: StateView) -> (Seq<Move>, StateView)
    decreases s.score + 0x1_0000_0000_0000,
{
    match brushfire_first(s) {
        Some(p) => match spec_apply(s, p, false) {
            StepView::Stepped(s2) => if 0 <= s2.score + 0x1_0000_0000_0000 < s.score + 0x1_0000_0000_0000 {
                let rest = brushfire_run(s2);
                (p + rest.0, rest.1)
            } else {
                (Seq::empty(), s)
            },
            _ => (Seq::empty(), s),
        },
        None => (Seq::empty(), s),
    }
}

/// The paths the brushfire finds from one state, handed out one at a time.
pub struct Paths {
    pub s: State,
    pub it: BblumsPathlist,
}

/// What a generator of paths from `s` keeps: its state is `s`'s, sound, with
/// its fires and targets.
pub open spec fn paths_ok(p: &Paths) -> bool {
    &&& sound(p.s@)
    &&& fires_of(&p.it.pathstate, p.s@)
    &&& targets_ok(p.s@.grid, p.it.targets@)
    &&& distinct_targets(p.it.targets@)
}

/// The brushfire generator of paths from `s`.
pub fn get_paths(s: &State) -> (ps: Paths)
    requires
        sound(s@),
    ensures
        ps.s@ == s@,
        paths_ok(&ps),
        ps.it.pathstate.easy is None,
        ps.it.targets@ == lambda_dests(s@.grid),
{
    let it = mk_iter(s);
    proof {
        s.grid.lemma_lens_fit();
        lemma_lambdas_in_grid(s@.grid);
        assert forall|i: int| 0 <= i < it.targets@.len() && (#[trigger] it.targets@[i]) is Some implies inb(
            s@.grid,
            it.targets@[i].unwrap().0 as int,
            it.targets@[i].unwrap().1 as int,
        ) && cell(s@.grid, it.targets@[i].unwrap().0 as int, it.targets@[i].unwrap().1 as int)
            == Square::Lambda by {
            assert(it.targets@[i] == Some(lambda_coords(coord_cells(s@.grid))[i]));
        }
        crate::state::lemma_lambdas_distinct(s@.grid);
        let ls = lambda_coords(coord_cells(s@.grid));
        assert forall|i: int, j: int| 0 <= i < j < it.targets@.len() && (#[trigger] it.targets@[i]) is Some implies it.targets@[i]
            != #[trigger] it.targets@[j] by {
            assert(it.targets@[i] == Some(ls[i]) && it.targets@[j] == Some(ls[j]));
        }
    }
    Paths { s: s.copy(), it }
}

impl Paths {
    /// The next path found, walked: the state it leads to and its moves.
    pub fn next(&mut self) -> (res: Option<(State, Path)>)
        requires
            paths_ok(old(self)),
        ensures
            paths_ok(final(self)),
            final(self).s@ == old(self).s@,
            res matches Some((s2, p)) ==> {
                &&& path_to_lambda(old(self).s@.grid, old(self).s@.robot, p@)
                &&& room(old(self).s@, p@.len() as int)
                &&& spec_apply(old(self).s@, p@, false) == StepView::Stepped(s2@)
                &&& sound(s2@)
                &&& room(s2@, 0)
            },
            fire_measure(final(self).it.pathstate.easy, final(self).s@.grid) <= fire_measure(
                old(self).it.pathstate.easy,
                old(self).s@.grid,
            ),
            final(self).it.pathstate.easy is Some,
            res is Some ==> present(final(self).it.targets@) < present(old(self).it.targets@),
            res matches Some((s2, p)) ==> old(self).it.targets@.contains(Some(end_coord(old(self).s@, p@)))
                && !final(self).it.targets@.contains(Some(end_coord(old(self).s@, p@))),
            forall|i: int|
                0 <= i < final(self).it.targets@.len() && (#[trigger] final(self).it.targets@[i]) is Some
                    ==> final(self).it.targets@[i] == old(self).it.targets@[i],
            bb_next(old(self).s@, fire_round(old(self).it.pathstate.easy), old(self).it.targets@) == (
                final(self).it.pathstate.easy->0.round@,
                final(self).it.targets@,
                match res {
                    Some((s2, p)) => Some(p@),
                    None => None,
                },
            ),
    {
        get_next_lambda(&self.s, &mut self.it)
    }
}

/// The brushfire path finder.
pub fn mk() -> (f: crate::path_find::PathFind)
    ensures
        f == crate::path_find::PathFind::Brushfire,
{
    crate::path_find::PathFind::Brushfire
}

} // verus!
