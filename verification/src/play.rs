//! The main robot driver: find the next lambda by brushfire, walk there, and
//! search over the order in which to collect the lambdas.

use vstd::prelude::*;
use crate::heuristics::path_aggr_weight;
use crate::path::{
    Path, PathState, any_dest_within, apply, at_distance, bfs_path, dest_within, fire_path, first_dest,
    genpath_restart, genpaths, layer_nonempty, law_apply_keeps_sound, lemma_found, spec_apply, unseen, walk_end,
    walk_ok, within, lemma_within_mono,
};
use crate::driver::compare_states;
use crate::state::{
    Coord, Move, Square, State, StateView, StepResult, StepView, board_view, cell, coord_cells, inb, lambda_coords,
    lemma_lambdas_in_grid, lemma_step_score, read_board, room, sound, spec_step, valid_board_text,
};

verus! {

/// The lambdas of a grid as brushfire targets, in the order of `lambdas`.
pub open spec fn lambda_dests(g: Seq<Seq<Square>>) -> Seq<Option<Coord>> {
    lambda_coords(coord_cells(g)).map_values(|c: Coord| Some(c))
}

/// The position a present target names.
pub open spec fn pos_of(d: Option<Coord>) -> (int, int) {
    (d.unwrap().0 as int, d.unwrap().1 as int)
}

/// Some lambda of `g` lies within `k` moves of `src` through squares the
/// brushfire may enter.
pub open spec fn lambda_within(g: Seq<Seq<Square>>, src: (int, int), k: nat) -> bool {
    exists|x: int, y: int|
        inb(g, x, y) && cell(g, x, y) == Square::Lambda && #[trigger] within(g, src, (x, y), k)
}

/// No lambda of `g` can be reached from `src` at all.
pub open spec fn no_lambda_reachable(g: Seq<Seq<Square>>, src: (int, int)) -> bool {
    forall|k: nat| !#[trigger] lambda_within(g, src, k)
}

/// What the brushfire answers once it has spread to round `r`: nothing when
/// no lambda is within `r` moves; otherwise the path by which it reached
/// the first lambda (in the order of `lambdas`) within `r` moves, a shortest
/// one.
pub open spec fn easy_answer(g: Seq<Seq<Square>>, src: (int, int), r: nat, res: Option<Path>) -> bool {
    &&& (res is None <==> !any_dest_within(g, src, lambda_dests(g), r))
    &&& res matches Some(p) ==> exists|i: int| {
        &&& #[trigger] dest_within(g, src, lambda_dests(g), i, r)
        &&& (forall|j: int| 0 <= j < i ==> !#[trigger] dest_within(g, src, lambda_dests(g), j, r))
        &&& walk_ok(g, src, p@)
        &&& walk_end(src, p@) == pos_of(lambda_dests(g)[i])
        &&& at_distance(g, src, walk_end(src, p@), p@.len())
    }
    &&& res matches Some(p) ==> p@ == easy_pick(g, src, r) && any_dest_within(g, src, lambda_dests(g), r)
}

/// The path the brushfire from `src` answers in round `r`: the one by which
/// it reached the first lambda within `r` moves.
#[verifier::opaque]
pub open spec fn easy_pick(g: Seq<Seq<Square>>, src: (int, int), r: nat) -> Seq<Move> {
    fire_path(g, src, pos_of(lambda_dests(g)[first_dest(g, src, lambda_dests(g), r)]))
}

/// The robot lives through path `p` from `s`, with room in the counters.
pub open spec fn survives(s: StateView, p: Seq<Move>) -> bool {
    room(s, p.len() as int) && spec_apply(s, p, false) is Stepped
}

/// The search for the next lambda from `s` stops in round `k`: the path the
/// fire answers there is one the robot survives; or the fire burned out in
/// that round with no lambda in reach; or it had burned out already (a fire
/// that burned out has nothing new to answer).
#[verifier::opaque]
pub open spec fn stops(s: StateView, k: nat) -> bool {
    let g = s.grid;
    let src = s.robot;
    ||| any_dest_within(g, src, lambda_dests(g), k) && survives(s, easy_pick(g, src, k))
    ||| !layer_nonempty(g, src, k) && (!any_dest_within(g, src, lambda_dests(g), k) || !layer_nonempty(
        g,
        src,
        (k - 1) as nat,
    ))
}

/// A fire that has burned out: lit, and no square is as far from the start
/// as its round.
pub open spec fn burnt(f: Option<PathState>, g: Seq<Seq<Square>>, src: (int, int)) -> bool {
    f matches Some(ps) && !layer_nonempty(g, src, ps.round@)
}

/// The fire answers a path in round `k`: some lambda is within reach, and
/// the fire was still burning when it spread to that round.
pub open spec fn answered(s: StateView, k: nat) -> bool {
    let g = s.grid;
    let src = s.robot;
    any_dest_within(g, src, lambda_dests(g), k) && (layer_nonempty(g, src, k) || layer_nonempty(
        g,
        src,
        (k - 1) as nat,
    ))
}

/// The round after `from` in which the search from `s` next stops.
pub open spec fn next_stop(s: StateView, from: nat) -> nat {
    choose|k: nat| from < k && stops(s, k) && forall|j: nat| from < j < k ==> !#[trigger] stops(s, j)
}

/// The path the search for the next lambda answers, its fire resumed from
/// round `from`: the path to the first lambda in reach in the round it
/// stops, when the fire answered it and the robot survives it; nothing
/// otherwise.
pub open spec fn pick_after(s: StateView, from: nat) -> Option<Seq<Move>> {
    let k = next_stop(s, from);
    if answered(s, k) && survives(s, easy_pick(s.grid, s.robot, k)) {
        Some(easy_pick(s.grid, s.robot, k))
    } else {
        None
    }
}

/// The first round after `from` where the search stops is `next_stop`.
proof fn lemma_next_stop(s: StateView, from: nat, k: nat)
    requires
        from < k,
        stops(s, k),
        forall|j: nat| from < j < k ==> !#[trigger] stops(s, j),
    ensures
        next_stop(s, from) == k,
{
    let k2 = next_stop(s, from);
    assert(from < k2 && stops(s, k2) && forall|j: nat| from < j < k2 ==> !#[trigger] stops(s, j));
    if k2 < k {
        assert(!stops(s, k2));
    } else if k < k2 {
        assert(!stops(s, k));
    }
}

/// The round a fire has spread to; none lit is round 0.
pub open spec fn fire_round(f: Option<PathState>) -> nat {
    match f {
        Some(ps) => ps.round@,
        None => 0,
    }
}

/// The answer is a shortest path through enterable squares to a lambda, of
/// at least one move.
pub open spec fn path_to_lambda(g: Seq<Seq<Square>>, src: (int, int), p: Seq<Move>) -> bool {
    let e = walk_end(src, p);
    &&& walk_ok(g, src, p)
    &&& inb(g, e.0, e.1)
    &&& cell(g, e.0, e.1) == Square::Lambda
    &&& at_distance(g, src, e, p.len())
    &&& p.len() >= 1
}

/// The facts about a brushfire answer that the driver uses.
proof fn lemma_easy_answer(s: StateView, r: nat, res: Option<Path>)
    requires
        sound(s),
        s.grid.len() <= usize::MAX,
        forall|k: int| 0 <= k < s.grid.len() ==> #[trigger] s.grid[k].len() <= usize::MAX,
        easy_answer(s.grid, s.robot, r, res),
    ensures
        res matches Some(p) ==> path_to_lambda(s.grid, s.robot, p@),
        no_lambda_reachable(s.grid, s.robot) ==> res is None,
{
    let g = s.grid;
    let src = s.robot;
    lemma_lambdas_in_grid(g);
    if let Some(p) = res {
        let i = choose|i: int| {
            &&& #[trigger] dest_within(g, src, lambda_dests(g), i, r)
            &&& (forall|j: int| 0 <= j < i ==> !#[trigger] dest_within(g, src, lambda_dests(g), j, r))
            &&& walk_ok(g, src, p@)
            &&& walk_end(src, p@) == pos_of(lambda_dests(g)[i])
            &&& at_distance(g, src, walk_end(src, p@), p@.len())
        };
        let c = lambda_coords(coord_cells(g))[i];
        assert(lambda_dests(g)[i] == Some(c));
        assert(inb(g, c.0 as int, c.1 as int) && cell(g, c.0 as int, c.1 as int) == Square::Lambda);
        if p@.len() == 0 {
            assert(walk_end(src, p@) == src);
            assert(false);
        }
        let e = walk_end(src, p@);
        assert(lambda_within(g, src, r)) by {
            assert(within(g, src, (e.0, e.1), r));
        }
    }
}

/// The brushfire state of the driver: one fire for easy paths and one for
/// aggressive ones.
pub struct PathList {
    pub easy: Option<PathState>,
    pub aggressive: Option<PathState>,
}

/// No fire lit yet.
pub fn initial_path_state() -> (ps: PathList)
    ensures
        ps.easy is None,
        ps.aggressive is None,
{
    PathList { easy: None, aggressive: None }
}

/// A path's length.
pub fn path_len(p: &Path) -> (n: usize)
    ensures
        n == p@.len(),
{
    p.len()
}

/// The state after playing `ml` from `s` (not strictly), when the game goes
/// on; nothing when it ends, or when the counters have no room for the
/// moves.
pub fn state_apply(s: &State, ml: &Path) -> (res: Option<State>)
    requires
        sound(s@),
    ensures
        res matches Some(s2) ==> room(s@, ml@.len() as int) && spec_apply(s@, ml@, false)
            == StepView::Stepped(s2@) && sound(s2@) && room(s2@, 0),
        room(s@, ml@.len() as int) && spec_apply(s@, ml@, false) is Stepped ==> res is Some,
{
    if !s.has_room(ml.len()) {
        return None;
    }
    proof {
        law_apply_keeps_sound(s@, ml@, false);
    }
    match apply(ml, s, false) {
        StepResult::Stepped(st) => Some(st),
        StepResult::Endgame(_) | StepResult::Oops => None,
    }
}

/// The targets of the easy fire: the lambdas of the grid.
fn lambda_targets(s: &State) -> (t: Vec<Option<Coord>>)
    ensures
        t@ == lambda_dests(s@.grid),
{
    let ls = s.grid.lambdas();
    let mut t: Vec<Option<Coord>> = Vec::new();
    let mut i: usize = 0;
    while i < ls.len()
        invariant
            i <= ls@.len(),
            ls@ == lambda_coords(coord_cells(s@.grid)),
            t@ == ls@.take(i as int).map_values(|c: Coord| Some(c)),
        decreases ls@.len() - i,
    {
        t.push(Some(ls[i]));
        proof {
            assert(t@ =~= ls@.take(i + 1).map_values(|c: Coord| Some(c)));
        }
        i += 1;
    }
    proof {
        assert(ls@.take(i as int) =~= ls@);
    }
    t
}

/// The start is the one square no move away.
proof fn lemma_layer_zero(g: Seq<Seq<Square>>, src: (int, int))
    requires
        inb(g, src.0, src.1),
    ensures
        layer_nonempty(g, src, 0),
{
    assert(at_distance(g, src, src, 0));
    assert(inb(g, src.0, src.1) && at_distance(g, src, (src.0, src.1), 0));
}

/// A fire that burned out in round `r` stays out in every later round.
proof fn lemma_stays_burnt(g: Seq<Seq<Square>>, src: (int, int), r: nat, k: nat)
    requires
        r >= 1,
        !layer_nonempty(g, src, r),
        r <= k,
    ensures
        !layer_nonempty(g, src, k),
{
    if k > r && layer_nonempty(g, src, k) {
        let (x, y) = choose|x: int, y: int| inb(g, x, y) && #[trigger] at_distance(g, src, (x, y), k);
        crate::path::lemma_burnt_out(g, src, r, (x, y), k);
        lemma_within_mono(g, src, (x, y), r, (k - 1) as nat);
    }
}

/// Finds the next path that needs no unsafe move (one that dislodges a
/// boulder): lights the fire at the robot, or spreads the fire already lit
/// further, until it reaches a lambda or burns out. A fire that had burned
/// out already answers nothing: it has nothing new to tell.
pub fn path_easy(s: &State, fire: &mut Option<PathState>) -> (res: Option<Path>)
    requires
        sound(s@),
        *old(fire) matches Some(ps) ==> ps.wf(s@.grid, s@.robot),
    ensures
        *final(fire) matches Some(ps) && ps.wf(s@.grid, s@.robot),
        burnt(*old(fire), s@.grid, s@.robot) ==> res is None && (*final(fire))->0.round@ == fire_round(*old(fire)) + 1,
        !burnt(*old(fire), s@.grid, s@.robot) ==> easy_answer(s@.grid, s@.robot, (*final(fire))->0.round@, res)
            && layer_nonempty(s@.grid, s@.robot, ((*final(fire))->0.round@ - 1) as nat),
        res is None ==> !layer_nonempty(s@.grid, s@.robot, (*final(fire))->0.round@),
        *old(fire) is None ==> forall|k: nat|
            0 < k < (*final(fire))->0.round@ ==> #[trigger] layer_nonempty(s@.grid, s@.robot, k)
                && !any_dest_within(s@.grid, s@.robot, lambda_dests(s@.grid), k),
        *old(fire) matches Some(ps) ==> forall|k: nat|
            ps.round@ < k < (*final(fire))->0.round@ ==> #[trigger] layer_nonempty(s@.grid, s@.robot, k)
                && !any_dest_within(s@.grid, s@.robot, lambda_dests(s@.grid), k),
        res matches Some(p) ==> path_to_lambda(s@.grid, s@.robot, p@),
        no_lambda_reachable(s@.grid, s@.robot) ==> res is None,
        *old(fire) is Some && layer_nonempty(s@.grid, s@.robot, (*final(fire))->0.round@) ==> unseen(
            (*final(fire))->0.visited@,
            s@.grid.len() as int,
        ) < unseen((*old(fire))->0.visited@, s@.grid.len() as int),
        *old(fire) is Some ==> unseen((*final(fire))->0.visited@, s@.grid.len() as int) <= unseen(
            (*old(fire))->0.visited@,
            s@.grid.len() as int,
        ),
        (*final(fire))->0.round@ > fire_round(*old(fire)),
{
    let ghost g = s@.grid;
    let ghost src = s@.robot;
    proof {
        s.grid.lemma_lens_fit();
        lemma_lambdas_in_grid(g);
    }
    let lambdas = lambda_targets(s);
    proof {
        assert forall|i: int| 0 <= i < lambdas@.len() && (#[trigger] lambdas@[i]) is Some implies inb(
            g,
            pos_of(lambdas@[i]).0,
            pos_of(lambdas@[i]).1,
        ) by {
            assert(lambdas@[i] == Some(lambda_coords(coord_cells(g))[i]));
        }
    }
    let ghost old_fire = *fire;
    let was_out = match fire {
        Some(ps) => ps.boundary.len() == 0,
        None => false,
    };
    proof {
        if let Some(ps) = old_fire {
            crate::path::lemma_boundary_layer(g, src, &ps);
        }
    }
    let (pathres, stateres) = match fire.take() {
        Some(ps) => genpath_restart(&s.grid, s.robotpos, lambdas.as_slice(), ps),
        None => genpaths(&s.grid, s.robotpos, lambdas.as_slice()),
    };
    let ghost r = stateres.round@;
    let ghost from = fire_round(old_fire);
    *fire = Some(stateres);
    let res = if was_out {
        None
    } else {
        match pathres {
            Some((p, _)) => Some(p),
            None => None,
        }
    };
    proof {
        lemma_layer_zero(g, src);
        if was_out {
            lemma_stays_burnt(g, src, from, r);
            if r > from + 1 {
                lemma_stays_burnt(g, src, from, from + 1);
            }
        } else {
            if r - 1 > from {
                assert(layer_nonempty(g, src, (r - 1) as nat));
            }
        }
    }
    proof {
        assert(src == (s.robotpos.0 as int, s.robotpos.1 as int));
        assert(!was_out ==> easy_answer(g, src, r, res)) by {
            if let Some((p, t)) = pathres {
                let i = choose|i: int| {
                    &&& #[trigger] dest_within(g, src, lambdas@, i, r)
                    &&& (forall|j: int| 0 <= j < i ==> !#[trigger] dest_within(g, src, lambdas@, j, r))
                    &&& lambdas@[i] == Some(t)
                    &&& walk_ok(g, src, p@)
                    &&& walk_end(src, p@) == (t.0 as int, t.1 as int)
                    &&& at_distance(g, src, (t.0 as int, t.1 as int), p@.len())
                    &&& p@ == bfs_path(g, src, (t.0 as int, t.1 as int), p@.len())
                };
                assert(dest_within(g, src, lambda_dests(g), i, r));
                lemma_found(g, src, lambdas@, r, p, t);
                reveal(easy_pick);
            }
        }
        if !was_out {
            lemma_easy_answer(s@, r, res);
        }
    }
    res
}

/// Finds paths that may use dangerous moves, through patterns. None are
/// known yet: this finds nothing and leaves its fire as it is.
pub fn path_aggressive(s: &State, fire: &mut Option<PathState>) -> (res: Option<Path>)
    ensures
        res is None,
        *final(fire) == *old(fire),
{
    None
}

/// The fires of a path list are those of the state `s`.
pub open spec fn fires_of(ps: &PathList, s: StateView) -> bool {
    &&& ps.easy matches Some(f) ==> f.wf(s.grid, s.robot)
    &&& ps.aggressive matches Some(f) ==> f.wf(s.grid, s.robot)
}

/// How far the easy fire may still spread: the squares it has not reached,
/// and one more while it still burns.
pub open spec fn easy_left(ps: &PathList, g: Seq<Seq<Square>>, src: (int, int), easy: Option<Path>) -> nat {
    if easy is Some {
        unseen(ps.easy->0.visited@, g.len() as int) + if layer_nonempty(g, src, ps.easy->0.round@) {
            2nat
        } else {
            1nat
        }
    } else {
        0
    }
}

/// Finds a path to the lambda that makes us happiest, and walks it: the
/// fire spreads round by round, each round answering the path to the first
/// lambda (in list order) within reach, until the robot survives the
/// answer (an aggressive path much shorter than the easy one would be
/// preferred, were there any). Nothing is answered only once the fire has
/// burned out.
#[verifier::rlimit(40)]
#[verifier::spinoff_prover]
pub fn get_next_lambda(s: &State, ps: &mut PathList) -> (res: Option<(State, Path)>)
    requires
        sound(s@),
        fires_of(old(ps), s@),
    ensures
        fires_of(final(ps), s@),
        final(ps).easy is Some,
        res matches Some((s2, p)) ==> {
            &&& path_to_lambda(s@.grid, s@.robot, p@)
            &&& room(s@, p@.len() as int)
            &&& spec_apply(s@, p@, false) == StepView::Stepped(s2@)
            &&& sound(s2@)
            &&& room(s2@, 0)
        },
        no_lambda_reachable(s@.grid, s@.robot) ==> res is None,
        res is None ==> !layer_nonempty(s@.grid, s@.robot, final(ps).easy->0.round@),
        final(ps).easy->0.round@ == next_stop(s@, fire_round(old(ps).easy)),
        res matches Some((s2, p)) ==> pick_after(s@, fire_round(old(ps).easy)) == Some(p@),
        res is None ==> pick_after(s@, fire_round(old(ps).easy)) is None,
{
    let ghost g = s@.grid;
    let ghost src = s@.robot;
    let ghost r0 = fire_round(ps.easy);
    let mut easy = path_easy(s, &mut ps.easy);
    let mut aggressive = path_aggressive(s, &mut ps.aggressive);
    proof {
        reveal(stops);
        assert forall|j: nat| r0 < j < ps.easy->0.round@ implies !#[trigger] stops(s@, j) by {
            assert(layer_nonempty(g, src, j) && !any_dest_within(g, src, lambda_dests(g), j));
        }
        if easy is None {
            let rc = ps.easy->0.round@;
            assert(stops(s@, rc));
        }
    }
    loop
        invariant
            sound(s@),
            g == s@.grid,
            src == s@.robot,
            fires_of(ps, s@),
            ps.easy is Some,
            aggressive is None,
            easy matches Some(p) ==> path_to_lambda(s@.grid, s@.robot, p@),
            no_lambda_reachable(s@.grid, s@.robot) ==> easy is None,
            easy is None ==> !layer_nonempty(s@.grid, s@.robot, ps.easy->0.round@),
            easy is None ==> stops(s@, ps.easy->0.round@),
            easy is None ==> !(answered(s@, ps.easy->0.round@) && survives(
                s@,
                easy_pick(g, src, ps.easy->0.round@),
            )),
            easy matches Some(p) ==> p@ == easy_pick(g, src, ps.easy->0.round@) && answered(
                s@,
                ps.easy->0.round@,
            ),
            r0 == fire_round(old(ps).easy),
            r0 < ps.easy->0.round@,
            forall|j: nat| r0 < j < ps.easy->0.round@ ==> !#[trigger] stops(s@, j),
        decreases easy_left(ps, s@.grid, s@.robot, easy),
    {
        let ghost rc = ps.easy->0.round@;
        if aggressive.is_none() && easy.is_none() {
            proof {
                lemma_next_stop(s@, r0, rc);
            }
            return None;
        } else if easy.is_none() || (aggressive.is_some() && path_aggr_weight(
            path_len(aggressive.as_ref().unwrap()),
        ) < path_len(easy.as_ref().unwrap())) {
            let try_path = aggressive.unwrap();
            let newstate = state_apply(s, &try_path);
            match newstate {
                Some(ns) => {
                    return Some((ns, try_path));
                },
                None => {
                    aggressive = path_aggressive(s, &mut ps.aggressive);
                },
            }
        } else {
            let try_path = easy.unwrap();
            let newstate = state_apply(s, &try_path);
            match newstate {
                Some(ns) => {
                    proof {
                        reveal(stops);
                        assert(stops(s@, rc));
                        lemma_next_stop(s@, r0, rc);
                    }
                    return Some((ns, try_path));
                },
                None => {
                    let ghost fire0 = ps.easy;
                    proof {
                        reveal(stops);
                        assert(!survives(s@, try_path@));
                        assert(!stops(s@, rc));
                    }
                    easy = path_easy(s, &mut ps.easy);
                    proof {
                        reveal(stops);
                        let rn = ps.easy->0.round@;
                        assert(fire0->0.round@ == rc);
                        assert(forall|k: nat| rc < k < rn ==> #[trigger] layer_nonempty(s@.grid, s@.robot, k)
                            && !any_dest_within(s@.grid, s@.robot, lambda_dests(s@.grid), k));
                        assert forall|j: nat| r0 < j < rn implies !#[trigger] stops(s@, j) by {
                            if rc < j {
                                assert(rc < j < rn);
                                assert(layer_nonempty(s@.grid, s@.robot, j));
                                assert(!any_dest_within(s@.grid, s@.robot, lambda_dests(s@.grid), j));
                            }
                        }
                        if burnt(fire0, g, src) {
                            assert(rn == rc + 1);
                            assert(!layer_nonempty(g, src, (rn - 1) as nat));
                            assert(stops(s@, rn));
                        } else if easy is None {
                            assert(stops(s@, rn));
                        }
                    }
                },
            }
        }
    }
}

/// `get_next_lambda` with no fire lit yet.
pub fn get_next_lambda_oneshot(s: &State) -> (res: Option<(State, Path)>)
    requires
        sound(s@),
    ensures
        res matches Some((s2, p)) ==> {
            &&& path_to_lambda(s@.grid, s@.robot, p@)
            &&& room(s@, p@.len() as int)
            &&& spec_apply(s@, p@, false) == StepView::Stepped(s2@)
            &&& sound(s2@)
            &&& room(s2@, 0)
        },
        no_lambda_reachable(s@.grid, s@.robot) ==> res is None,
        res matches Some((s2, p)) ==> pick_after(s@, 0) == Some(p@),
        res is None ==> pick_after(s@, 0) is None,
{
    let mut ps = initial_path_state();
    get_next_lambda(s, &mut ps)
}

/// Moves gathered last first, given back first first.
pub open spec fn forward(rev: Seq<Move>) -> Seq<Move> {
    rev.drop_first().reverse()
}

/// Adds the moves of `p` to moves gathered last first: `p`'s moves come
/// before those already there.
pub fn add_path_prefix(finishing_moves: &mut Vec<Move>, p: &Path)
    ensures
        final(finishing_moves)@ == old(finishing_moves)@ + p@.reverse(),
{
    let ghost start = finishing_moves@;
    let mut i: usize = p.len();
    while i > 0
        invariant
            i <= p@.len(),
            finishing_moves@ == start + p@.reverse().take(p@.len() - i),
        decreases i,
    {
        finishing_moves.push(p[i - 1]);
        proof {
            assert(p@.reverse().take(p@.len() - i + 1) =~= p@.reverse().take(p@.len() - i).push(p@[i - 1]));
        }
        i -= 1;
    }
    proof {
        assert(p@.reverse().take(p@.len() as int) =~= p@.reverse());
    }
}

/// Playing one path and then another is playing them one after the other.
pub proof fn lemma_apply_concat(s: StateView, p: Seq<Move>, q: Seq<Move>, strict: bool)
    ensures
        spec_apply(s, p + q, strict) == match spec_apply(s, p, strict) {
            StepView::Stepped(s2) => spec_apply(s2, q, strict),
            r => r,
        },
    decreases p.len(),
{
    if p.len() == 0 {
        assert(p + q =~= q);
    } else {
        assert((p + q)[0] == p[0]);
        assert((p + q).drop_first() =~= p.drop_first() + q);
        if let StepView::Stepped(s2) = spec_step(s, p[0], strict) {
            lemma_apply_concat(s2, p.drop_first(), q, strict);
        }
    }
}

/// Every move of a path that lets the game go on costs one point.
pub proof fn lemma_apply_score(s: StateView, p: Seq<Move>, strict: bool)
    ensures
        spec_apply(s, p, strict) matches StepView::Stepped(s2) ==> s2.score == s.score - p.len(),
    decreases p.len(),
{
    if p.len() > 0 {
        lemma_step_score(s, p[0], strict);
        if let StepView::Stepped(s2) = spec_step(s, p[0], strict) {
            lemma_apply_score(s2, p.drop_first(), strict);
        }
    }
}

/// The moves of a search, last first, with the abort first of all; the
/// state where the search stopped; its score.
pub type SearchResult = (Vec<Move>, State, i64);

/// What a search result promises: its moves, played from `s`, lead to its
/// state, and then it aborts; its score is that state's.
pub open spec fn search_ok(s: StateView, res: SearchResult) -> bool {
    &&& res.0@.len() >= 1
    &&& res.0@[0] == Move::A
    &&& spec_apply(s, forward(res.0@), false) == StepView::Stepped(res.1@)
    &&& sound(res.1@)
    &&& room(res.1@, 0)
    &&& res.2 == res.1.score
}

/// How a search proceeds.
pub struct SearchOpts {
    /// How many targets to try at each node.
    pub branch_factor: usize,
    /// Whether to report each path pursued.
    pub verbose: bool,
}

/// One target per node, quietly.
pub fn default_opts() -> (o: SearchOpts)
    ensures
        o.branch_factor == 1,
        !o.verbose,
{
    SearchOpts { branch_factor: 1, verbose: false }
}

/// One target per node, reporting as asked.
pub fn default_opts_verbose(verbose: bool) -> (o: SearchOpts)
    ensures
        o.branch_factor == 1,
        o.verbose == verbose,
{
    SearchOpts { branch_factor: 1, verbose }
}

/// `bf` targets per node, quietly.
pub fn default_opts_bfac(bf: usize) -> (o: SearchOpts)
    ensures
        o.branch_factor == bf,
        !o.verbose,
{
    SearchOpts { branch_factor: bf, verbose: false }
}

/// The search result of a state where the robot stops: abort at once.
pub(crate) fn stop_here(s: State) -> (res: SearchResult)
    requires
        sound(s@),
        room(s@, 0),
    ensures
        search_ok(s@, res),
        res.1@ == s@,
        forward(res.0@) == Seq::<Move>::empty(),
        res.0@ == seq![Move::A],
{
    let score = s.score;
    let res = (vec![Move::A], s, score);
    proof {
        assert(forward(res.0@) =~= Seq::<Move>::empty());
    }
    res
}

/// The result of walking `path` from `s` to `ns`, then finishing as `rest`
/// says from `ns`.
pub(crate) proof fn lemma_prefix(s: StateView, ns: StateView, path: Seq<Move>, rest: Seq<Move>, end: StateView)
    requires
        spec_apply(s, path, false) == StepView::Stepped(ns),
        rest.len() >= 1,
        rest[0] == Move::A,
        spec_apply(ns, forward(rest), false) == StepView::Stepped(end),
    ensures
        (rest + path.reverse()).len() >= 1,
        (rest + path.reverse())[0] == Move::A,
        spec_apply(s, forward(rest + path.reverse()), false) == StepView::Stepped(end),
        forward(rest + path.reverse()) == path + forward(rest),
{
    let all = rest + path.reverse();
    assert(all.drop_first() =~= rest.drop_first() + path.reverse());
    assert(forward(all) =~= path + forward(rest)) by {
        assert(path.reverse().reverse() =~= path);
        assert((rest.drop_first() + path.reverse()).reverse() =~= path.reverse().reverse() + rest.drop_first().reverse());
    }
    lemma_apply_concat(s, path, forward(rest), false);
}

/// The greedy game from `s`: walk the path the search for the next lambda
/// answers, and go on from there, until it answers nothing. The moves, and
/// the state where they end. (Each path walked costs points, so the score
/// falls with each one and the walk ends.)
pub open spec fn greedy_run(s: StateView) -> (Seq<Move>, StateView)
    decreases s.score + 0x1_0000_0000_0000,
{
    match pick_after(s, 0) {
        Some(p) => match spec_apply(s, p, false) {
            StepView::Stepped(s2) => if 0 <= s2.score + 0x1_0000_0000_0000 < s.score + 0x1_0000_0000_0000 {
                let rest = greedy_run(s2);
                (p + rest.0, rest.1)
            } else {
                (Seq::empty(), s)
            },
            _ => (Seq::empty(), s),
        },
        None => (Seq::empty(), s),
    }
}

/// Repeatedly finds and walks to the next lambda until none is found, then
/// aborts. Answers the moves (last first), the final state and its score.
pub fn greedy_finish(s: State, o: &SearchOpts) -> (res: SearchResult)
    requires
        sound(s@),
        room(s@, 0),
    ensures
        search_ok(s@, res),
        forward(res.0@) == greedy_run(s@).0,
        res.1@ == greedy_run(s@).1,
    decreases s.score + 0x1_0000_0000_0000,
{
    let result = get_next_lambda_oneshot(&s);
    match result {
        Some((newstate, path)) => {
            proof {
                lemma_apply_score(s@, path@, false);
            }
            let (mut finishing_moves, endstate, score) = greedy_finish(newstate, o);
            let ghost rest = finishing_moves@;
            add_path_prefix(&mut finishing_moves, &path);
            proof {
                lemma_prefix(s@, newstate@, path@, rest, endstate@);
                assert(greedy_run(s@) == (path@ + greedy_run(newstate@).0, greedy_run(newstate@).1));
            }
            (finishing_moves, endstate, score)
        },
        None => stop_here(s),
    }
}

/// The first `n` paths the search for the next lambda answers from `s`, one
/// after the other on one fire resumed from round `from`; fewer if it burns
/// out first.
pub open spec fn candidates(s: StateView, from: nat, n: nat) -> Seq<Seq<Move>>
    decreases n,
{
    if n == 0 {
        Seq::empty()
    } else {
        match pick_after(s, from) {
            Some(p) => seq![p] + candidates(s, next_stop(s, from), (n - 1) as nat),
            None => Seq::empty(),
        }
    }
}

/// The line a search of `depth` levels, `bf` targets a node, plays from
/// `s`: the moves and the state where they end. At depth 0 the greedy game;
/// otherwise the best of the lines through the first `bf` targets, or none
/// when there is no target.
pub open spec fn search_run(s: StateView, depth: nat, bf: nat) -> (Seq<Move>, StateView)
    decreases depth, 0nat, 0nat,
{
    if depth == 0 {
        greedy_run(s)
    } else {
        best_line(s, candidates(s, 0, bf), (depth - 1) as nat, bf)
    }
}

/// The best of the lines from `s` that first walk one of `cs` and then
/// search `sub` levels on: the first with the highest final score; stopping
/// at once when `cs` is empty.
pub open spec fn best_line(s: StateView, cs: Seq<Seq<Move>>, sub: nat, bf: nat) -> (Seq<Move>, StateView)
    decreases sub, 1nat, cs.len(),
{
    if cs.len() == 0 {
        (Seq::empty(), s)
    } else {
        let prev = best_line(s, cs.drop_last(), sub, bf);
        let p = cs.last();
        let rest = search_run(spec_apply(s, p, false)->Stepped_0, sub, bf);
        if cs.len() == 1 || rest.1.score > prev.1.score {
            (p + rest.0, rest.1)
        } else {
            prev
        }
    }
}

/// Searches `depth` levels of targets, `branch_factor` at each node, and
/// finishes each line greedily; answers the best line found (the first of
/// the best scores), or stops at once when no target is found.
pub fn search(s: State, depth: usize, o: &SearchOpts) -> (res: SearchResult)
    requires
        sound(s@),
        room(s@, 0),
    ensures
        search_ok(s@, res),
        forward(res.0@) == search_run(s@, depth as nat, o.branch_factor as nat).0,
        res.1@ == search_run(s@, depth as nat, o.branch_factor as nat).1,
    decreases depth,
{
    if depth == 0 {
        return greedy_finish(s, o);
    }
    let ghost bf = o.branch_factor as nat;
    let ghost sub = (depth - 1) as nat;
    let mut best: Option<SearchResult> = None;
    let mut best_score: Option<i64> = None;
    let mut path_state = initial_path_state();
    let ghost mut done: Seq<Seq<Move>> = Seq::empty();
    let mut k: usize = 0;
    while k < o.branch_factor
        invariant_except_break
            candidates(s@, 0, bf) == done + candidates(s@, fire_round(path_state.easy), (bf - k) as nat),
        invariant
            sound(s@),
            room(s@, 0),
            depth > 0,
            bf == o.branch_factor,
            sub == depth - 1,
            k <= bf,
            done.len() == k,
            fires_of(&path_state, s@),
            best is Some <==> best_score is Some,
            best is Some <==> done.len() > 0,
            best matches Some(b) ==> search_ok(s@, b) && best_score == Some(b.2),
            best matches Some(b) ==> forward(b.0@) == best_line(s@, done, sub, bf).0 && b.1@ == best_line(
                s@,
                done,
                sub,
                bf,
            ).1,
        ensures
            candidates(s@, 0, bf) == done,
        decreases o.branch_factor - k,
    {
        let ghost from = fire_round(path_state.easy);
        let target_opt = get_next_lambda(&s, &mut path_state);
        proof {
            assert(candidates(s@, from, (bf - k) as nat) == match pick_after(s@, from) {
                Some(p) => seq![p] + candidates(s@, next_stop(s@, from), (bf - k - 1) as nat),
                None => Seq::<Seq<Move>>::empty(),
            });
        }
        match target_opt {
            Some((newstate, path)) => {
                let (mut finishing_moves, endstate, this_score) = search(newstate, depth - 1, o);
                let ghost done2 = done.push(path@);
                proof {
                    assert(done2.drop_last() =~= done);
                    assert(done2.last() == path@);
                    assert(seq![path@] + candidates(s@, next_stop(s@, from), (bf - k - 1) as nat) == seq![path@]
                        + candidates(s@, fire_round(path_state.easy), (bf - (k + 1)) as nat));
                    assert(done + (seq![path@] + candidates(s@, fire_round(path_state.easy), (bf - (k + 1)) as nat))
                        =~= done2 + candidates(s@, fire_round(path_state.easy), (bf - (k + 1)) as nat));
                }
                if best_score.is_none() || this_score > best_score.unwrap() {
                    let ghost rest = finishing_moves@;
                    add_path_prefix(&mut finishing_moves, &path);
                    proof {
                        lemma_prefix(s@, newstate@, path@, rest, endstate@);
                    }
                    best = Some((finishing_moves, endstate, this_score));
                    best_score = Some(this_score);
                }
                proof {
                    done = done2;
                }
            },
            None => {
                proof {
                    assert(done + Seq::<Seq<Move>>::empty() =~= done);
                }
                break;
            },
        }
        k += 1;
    }
    proof {
        if k == bf {
            assert(done + candidates(s@, fire_round(path_state.easy), 0) =~= done);
        }
    }
    match best {
        Some(b) => b,
        None => stop_here(s),
    }
}

/// Reads a board and sets a search `depth` levels deep, `bf` targets a node,
/// against the greedy game: answers whether the search scores higher (at
/// equal scores the two must also end on the same board, which cannot make
/// the answer yes). A board that is not a sound mine, or whose lambdas overflow the counters,
/// fails the comparison.
pub fn test_search_vs_greedy(mapstr: &str, depth: usize, bf: usize) -> (ok: bool)
    requires
        valid_board_text(mapstr@),
    ensures
        ok == (sound(board_view(mapstr@)) && room(board_view(mapstr@), 0) && search_run(board_view(mapstr@), depth as nat, bf as nat).1.score
            > greedy_run(board_view(mapstr@)).1.score),
{
    let s = read_board(mapstr);
    if !s.is_sound() || !s.has_room(0) {
        return false;
    }
    let (_, endstate, score) = greedy_finish(s.copy(), &default_opts());
    let (_, endstate2, score2) = search(s, depth, &default_opts_bfac(bf));
    if score2 == score && !compare_states(&endstate, &endstate2) {
        return false;
    }
    score2 > score
}

/// Plays a game greedily: the moves, first first, ending with the abort, and
/// the state before the abort.
pub fn play_game(s: State, verbose: bool) -> (res: (Vec<Move>, State))
    requires
        sound(s@),
        room(s@, 0),
    ensures
        res.0@.len() >= 1,
        res.0@.last() == Move::A,
        spec_apply(s@, res.0@.drop_last(), false) == StepView::Stepped(res.1@),
        res.0@ == greedy_run(s@).0.push(Move::A),
        res.1@ == greedy_run(s@).1,
{
    let o = default_opts_verbose(verbose);
    let (moves_rev, endstate, _score) = greedy_finish(s, &o);
    let mut moves: Vec<Move> = Vec::new();
    let mut i: usize = moves_rev.len();
    while i > 0
        invariant
            i <= moves_rev@.len(),
            moves@ == moves_rev@.reverse().take(moves_rev@.len() - i),
        decreases i,
    {
        moves.push(moves_rev[i - 1]);
        proof {
            assert(moves_rev@.reverse().take(moves_rev@.len() - i + 1) =~= moves_rev@.reverse().take(
                moves_rev@.len() - i,
            ).push(moves_rev@[i - 1]));
        }
        i -= 1;
    }
    proof {
        assert(moves_rev@.reverse().take(moves_rev@.len() as int) =~= moves_rev@.reverse());
        assert(moves@.drop_last() =~= forward(moves_rev@));
        assert(moves@ =~= moves@.drop_last().push(moves@.last()));
    }
    (moves, endstate)
}

} // verus!
