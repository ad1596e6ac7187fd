//! Evaluation of a state: its score, plus a part of the worth of each lambda
//! the brushfire can still reach without danger.

use vstd::prelude::*;
use vstd::wrapping::i64_specs;
use crate::brushfire::{bb_pick, clear_first, fire_next, lemma_clear_found, lemma_present_all, map_mut, present, targets_ok};
use crate::dlist::{DList, create};
use crate::path::{Path, PathState, search_end, unseen, walk_end};
use crate::play::{fire_round, lambda_dests, path_to_lambda};
use crate::state::{Coord, Grid, Move, Square, StateView, State, cell, coord_cells, inb, lambda_coords, lemma_lambdas_in_grid, sound};

verus! {

/// Lambdas with their scores.
pub type LambdaList = DList<(Coord, i64)>;

/// The index of the first entry scored at least `score`, or the length when
/// there is none.
pub open spec fn first_at_least(s: Seq<(Coord, i64)>, score: i64) -> int
    decreases s.len(),
{
    if s.len() == 0 {
        0
    } else if s[0].1 >= score {
        0
    } else {
        1 + first_at_least(s.drop_first(), score)
    }
}

proof fn lemma_first_at_least(s: Seq<(Coord, i64)>, score: i64, m: int)
    requires
        0 <= m <= s.len(),
        forall|k: int| 0 <= k < m ==> s[k].1 < score,
        m == s.len() || s[m].1 >= score,
    ensures
        first_at_least(s, score) == m,
    decreases m,
{
    if m > 0 {
        lemma_first_at_least(s.drop_first(), score, m - 1);
    }
}

/// The list with `(coord, score)` put just before the first entry scored at
/// least `score`, or at the tail when there is none.
pub open spec fn placed_before(s: Seq<(Coord, i64)>, coord: Coord, score: i64) -> Seq<(Coord, i64)> {
    s.insert(first_at_least(s, score), (coord, score))
}

/// The scores rise, or stay, from the head to the tail.
pub open spec fn ascending(s: Seq<(Coord, i64)>) -> bool {
    forall|i: int, j: int| 0 <= i <= j < s.len() ==> s[i].1 <= s[j].1
}

proof fn lemma_first_at_least_bound(s: Seq<(Coord, i64)>, score: i64)
    ensures
        0 <= first_at_least(s, score) <= s.len(),
        forall|k: int| 0 <= k < first_at_least(s, score) ==> s[k].1 < score,
        first_at_least(s, score) < s.len() ==> s[first_at_least(s, score)].1 >= score,
    decreases s.len(),
{
    if s.len() > 0 && s[0].1 < score {
        lemma_first_at_least_bound(s.drop_first(), score);
        let t = s.drop_first();
        assert forall|k: int| 0 <= k < first_at_least(s, score) implies s[k].1 < score by {
            if k > 0 {
                assert(s[k] == t[k - 1]);
            }
        }
    }
}

/// Adding a scored lambda to a list whose scores ascend from the head keeps
/// them ascending, and the list holds what it held plus the new entry.
pub proof fn lemma_placed_before_ascending(s: Seq<(Coord, i64)>, coord: Coord, score: i64)
    requires
        ascending(s),
    ensures
        ascending(placed_before(s, coord, score)),
        placed_before(s, coord, score).to_multiset() == s.to_multiset().insert((coord, score)),
        placed_before(s, coord, score).len() == s.len() + 1,
{
    lemma_first_at_least_bound(s, score);
    let i = first_at_least(s, score);
    let t = placed_before(s, coord, score);
    assert forall|a: int, b: int| 0 <= a <= b < t.len() implies t[a].1 <= t[b].1 by {
        if a < i && b > i {
            assert(t[b] == s[b - 1]);
            assert(t[a] == s[a]);
        } else if a < i && b == i {
            assert(t[a] == s[a]);
        } else if a == i && b > i {
            assert(t[b] == s[b - 1]);
            assert(s[i].1 >= score);
        } else if a > i {
            assert(t[a] == s[a - 1]);
            assert(t[b] == s[b - 1]);
        } else if b < i {
            assert(t[a] == s[a]);
            assert(t[b] == s[b]);
        }
    }
    vstd::seq_lib::to_multiset_insert(s, i, (coord, score));
}

/// Adds a lambda with its score to the list: just before the first entry
/// scored at least as high, or at the tail.
pub fn add_lambda_sorted(ls: &mut LambdaList, coord: Coord, score: i64)
    requires
        old(ls).wf(),
    ensures
        final(ls).wf(),
        final(ls)@ == placed_before(old(ls)@, coord, score),
        final(ls)@.to_multiset() == old(ls)@.to_multiset().insert((coord, score)),
        ascending(old(ls)@) ==> ascending(final(ls)@),
{
    proof {
        ls.lemma_nodes();
        lemma_first_at_least_bound(ls@, score);
        vstd::seq_lib::to_multiset_insert(ls@, first_at_least(ls@, score), (coord, score));
        if ascending(ls@) {
            lemma_placed_before_ascending(ls@, coord, score);
        }
    }
    let mut link = ls.peek_n();
    let ghost mut k: int = 0;
    while link.is_some()
        invariant
            ls.wf(),
            *ls == *old(ls),
            placed_before(ls@, coord, score).to_multiset() == ls@.to_multiset().insert((coord, score)),
            ascending(ls@) ==> ascending(placed_before(ls@, coord, score)),
            0 <= k <= ls@.len(),
            k < ls@.len() ==> link == Some(crate::dlist::DListNode { idx: ls.nodes()[k] }),
            k == ls@.len() ==> link is None,
            forall|j: int| 0 <= j < k ==> ls@[j].1 < score,
            ls.nodes().len() == ls@.len(),
            forall|j: int| 0 <= j < ls@.len() ==> #[trigger] ls.datum(ls.nodes()[j] as int) == ls@[j],
            forall|j: int| 0 <= j < ls@.len() ==> ls.allocated(#[trigger] ls.nodes()[j] as int),
            forall|j: int| 0 <= j < ls@.len() ==> #[trigger] ls.pos(crate::dlist::DListNode { idx: ls.nodes()[j] }) == j,
        decreases ls@.len() - k,
    {
        let neighbour_nobe = link.unwrap();
        assert(ls.has(neighbour_nobe)) by {
            assert(ls.nodes()[k] == neighbour_nobe.idx);
        }
        if ls.data(neighbour_nobe).1 >= score {
            proof {
                lemma_first_at_least(ls@, score, k);
            }
            ls.insert_before((coord, score), neighbour_nobe);
            return;
        }
        link = ls.next_link(neighbour_nobe);
        proof {
            k = k + 1;
        }
    }
    proof {
        lemma_first_at_least(ls@, score, k);
        assert(ls@.insert(ls@.len() as int, (coord, score)) =~= ls@.push((coord, score)));
    }
    ls.push((coord, score));
}

/// The list built by adding the lambdas at `cs`, with scores `sc`, in order.
pub open spec fn scored(cs: Seq<Coord>, sc: Seq<i64>) -> Seq<(Coord, i64)>
    decreases cs.len(),
{
    if cs.len() == 0 || sc.len() < cs.len() {
        Seq::empty()
    } else {
        placed_before(
            scored(cs.drop_last(), sc.take(cs.len() - 1)),
            cs.last(),
            sc[cs.len() - 1],
        )
    }
}

/// Scores each lambda of the grid with `f` and lists them: each is put just
/// before the first one already listed with a score at least its own.
pub fn score_lambdas<F: Fn(Coord) -> i64>(g: &Grid, f: F) -> (ls: LambdaList)
    requires
        forall|c: Coord| #[trigger] f.requires((c,)),
    ensures
        ls.wf(),
        ascending(ls@),
        exists|sc: Seq<i64>| {
            &&& sc.len() == lambda_coords(coord_cells(g@)).len()
            &&& (forall|i: int| 0 <= i < sc.len() ==> f.ensures((lambda_coords(coord_cells(g@))[i],), #[trigger] sc[i]))
            &&& ls@ == scored(lambda_coords(coord_cells(g@)), sc)
        },
{
    let cs = g.lambdas();
    let mut lambdas = create::<(Coord, i64)>();
    let ghost mut sc: Seq<i64> = Seq::empty();
    let mut i: usize = 0;
    while i < cs.len()
        invariant
            i <= cs@.len(),
            cs@ == lambda_coords(coord_cells(g@)),
            forall|c: Coord| #[trigger] f.requires((c,)),
            lambdas.wf(),
            sc.len() == i,
            forall|k: int| 0 <= k < i ==> f.ensures((cs@[k],), #[trigger] sc[k]),
            lambdas@ == scored(cs@.take(i as int), sc),
            ascending(lambdas@),
        decreases cs@.len() - i,
    {
        let c = cs[i];
        let v = f(c);
        proof {
            lemma_placed_before_ascending(lambdas@, c, v);
        }
        add_lambda_sorted(&mut lambdas, c, v);
        proof {
            let t = cs@.take(i + 1);
            assert(t.drop_last() =~= cs@.take(i as int));
            assert(sc.push(v).take(i as int) =~= sc);
            sc = sc.push(v);
        }
        i += 1;
    }
    proof {
        assert(cs@.take(i as int) =~= cs@);
    }
    lambdas
}

/// The points a lambda that is merely reachable is worth.
pub const LAMBDA_IN_BUSH_SCORE: i64 = 12;

/// The score raised `n` times by `LAMBDA_IN_BUSH_SCORE` (as a signed number,
/// which wraps).
pub open spec fn bush_bonus(score: i64, n: nat) -> i64
    decreases n,
{
    if n == 0 {
        score
    } else {
        i64_specs::wrapping_add(bush_bonus(score, (n - 1) as nat), LAMBDA_IN_BUSH_SCORE)
    }
}

/// How many answers the fire gives, resumed from round `from`, for targets
/// `t`, each taking its target off the list, until it answers nothing.
pub open spec fn bush_count(g: Seq<Seq<Square>>, src: (int, int), from: nat, t: Seq<Option<Coord>>) -> nat
    decreases present(t),
{
    match bb_pick(g, src, t, from) {
        None => 0,
        Some((p, c)) => {
            let t2 = clear_first(t, Some(c));
            if present(t2) < present(t) {
                1 + bush_count(g, src, search_end(g, src, t, from), t2)
            } else {
                0
            }
        },
    }
}

/// The evaluation of a state: its score raised by `LAMBDA_IN_BUSH_SCORE`
/// for each lambda the brushfire reaches, one after the other.
pub open spec fn eval_of(s: StateView) -> i64 {
    bush_bonus(s.score as i64, bush_count(s.grid, s.robot, 0, lambda_dests(s.grid)))
}

/// How many answers are still to come, after answer `e` left the fire in
/// round `r` with targets `t`.
pub open spec fn count_after(g: Seq<Seq<Square>>, src: (int, int), r: nat, t: Seq<Option<Coord>>, e: bool) -> nat {
    if e {
        1 + bush_count(g, src, r, t)
    } else {
        0
    }
}

/// Counting answers goes on as the fire's next answer says.
proof fn lemma_bush_count(
    g: Seq<Seq<Square>>,
    src: (int, int),
    from: nat,
    t: Seq<Option<Coord>>,
    r: nat,
    t2: Seq<Option<Coord>>,
    e: Option<(Seq<Move>, Coord)>,
)
    requires
        r == search_end(g, src, t, from),
        e == bb_pick(g, src, t, from),
        e is None ==> t2 == t,
        e matches Some((p, c)) ==> t2 == clear_first(t, Some(c)) && t.contains(Some(c)),
    ensures
        bush_count(g, src, from, t) == count_after(g, src, r, t2, e is Some),
{
    if let Some((p, c)) = e {
        lemma_clear_found(t, c);
    }
}

/// Finds the next lambda among the targets the fire reaches, with a path to
/// it, and clears it from the targets.
pub fn path_easy(s: &State, fire: &mut Option<PathState>, targets: &mut Vec<Option<Coord>>) -> (res: Option<(Path, Coord)>)
    requires
        sound(s@),
        *old(fire) matches Some(ps) ==> ps.wf(s@.grid, s@.robot),
        targets_ok(s@.grid, old(targets)@),
    ensures
        *final(fire) matches Some(ps) && ps.wf(s@.grid, s@.robot),
        targets_ok(s@.grid, final(targets)@),
        res is None ==> !crate::path::layer_nonempty(s@.grid, s@.robot, (*final(fire))->0.round@),
        res is None ==> final(targets)@ == old(targets)@,
        res matches Some((p, t)) ==> path_to_lambda(s@.grid, s@.robot, p@) && walk_end(s@.robot, p@)
            == (t.0 as int, t.1 as int) && final(targets)@ == clear_first(old(targets)@, Some(t))
            && old(targets)@.contains(Some(t)),
        (*final(fire))->0.round@ == search_end(s@.grid, s@.robot, old(targets)@, fire_round(*old(fire))),
        match res {
            Some((p, t)) => bb_pick(s@.grid, s@.robot, old(targets)@, fire_round(*old(fire))) == Some((p@, t)),
            None => bb_pick(s@.grid, s@.robot, old(targets)@, fire_round(*old(fire))) is None,
        },
{
    let ghost t0 = targets@;
    let pathres = fire_next(s, fire, targets);
    let ghost pr = pathres;
    let res = process_pathres(pathres, targets);
    proof {
        if pr is Some {
            crate::brushfire::lemma_clear_first(t0, Some((pr->0).1));
        }
        assert forall|i: int| 0 <= i < targets@.len() && (#[trigger] targets@[i]) is Some implies inb(
            s@.grid,
            targets@[i].unwrap().0 as int,
            targets@[i].unwrap().1 as int,
        ) && cell(s@.grid, targets@[i].unwrap().0 as int, targets@[i].unwrap().1 as int) == Square::Lambda by {
            assert(t0[i] == targets@[i]);
        }
    }
    res
}

/// Clears the target the fire found from the list, and hands on its path
/// and position.
fn process_pathres(x: Option<(Path, Coord)>, targets: &mut Vec<Option<Coord>>) -> (res: Option<(Path, Coord)>)
    ensures
        res == x,
        x matches Some((p, t)) ==> final(targets)@ == clear_first(old(targets)@, Some(t)),
        x is None ==> final(targets)@ == old(targets)@,
{
    let ghost xg = x;
    match x {
        Some((path, target_found)) => {
            let mut i: usize = 0;
            while i < targets.len()
                invariant
                    xg == x,
                    xg == Some((path, target_found)),
                    i <= targets@.len(),
                    targets@ == old(targets)@,
                    forall|k: int| 0 <= k < i ==> targets@[k] != Some(target_found),
                decreases targets@.len() - i,
            {
                if targets[i] == Some(target_found) {
                    proof {
                        lemma_first_index_is(targets@, Some(target_found), i as int);
                    }
                    targets.set(i, None);
                    return Some((path, target_found));
                }
                i += 1;
            }
            proof {
                lemma_first_index_is(targets@, Some(target_found), i as int);
            }
            Some((path, target_found))
        },
        None => None,
    }
}

proof fn lemma_first_index_is(t: Seq<Option<Coord>>, x: Option<Coord>, m: int)
    requires
        0 <= m <= t.len(),
        forall|k: int| 0 <= k < m ==> t[k] != x,
        m == t.len() || t[m] == x,
    ensures
        crate::brushfire::first_index(t, x) == m,
    decreases m,
{
    if m > 0 {
        lemma_first_index_is(t.drop_first(), x, m - 1);
    }
}

/// The evaluation of a state: its score, raised by `LAMBDA_IN_BUSH_SCORE`
/// for each lambda the brushfire reaches, one after the other, without
/// danger (not trying whether the robot survives the paths).
pub fn evaluate(s: &State) -> (score: i64)
    requires
        sound(s@),
    ensures
        score == bush_bonus(s.score, bush_count(s@.grid, s@.robot, 0, lambda_dests(s@.grid))),
        score == eval_of(s@),
        bush_count(s@.grid, s@.robot, 0, lambda_dests(s@.grid)) <= lambda_coords(coord_cells(s@.grid)).len(),
{
    let mut score = s.score;
    proof {
        s.grid.lemma_lens_fit();
        lemma_lambdas_in_grid(s@.grid);
    }
    let ls = s.grid.lambdas();
    let mut targets = map_mut(ls.as_slice(), |x: Coord| -> (o: Option<Coord>) ensures o == Some(x) { Some(x) });
    let ghost total = lambda_coords(coord_cells(s@.grid)).len();
    proof {
        assert(targets@ =~= lambda_coords(coord_cells(s@.grid)).map_values(|c: Coord| Some(c)));
        assert forall|i: int| 0 <= i < targets@.len() && (#[trigger] targets@[i]) is Some implies inb(
            s@.grid,
            targets@[i].unwrap().0 as int,
            targets@[i].unwrap().1 as int,
        ) && cell(s@.grid, targets@[i].unwrap().0 as int, targets@[i].unwrap().1 as int) == Square::Lambda by {
            assert(targets@[i] == Some(lambda_coords(coord_cells(s@.grid))[i]));
        }
        lemma_present_all(targets@);
    }
    let mut easy_state: Option<PathState> = None;
    let ghost t_start = targets@;
    let mut easy_target = path_easy(s, &mut easy_state, &mut targets);
    let ghost mut n: nat = 0;
    proof {
        if easy_target is Some {
            lemma_clear_found(t_start, (easy_target->0).1);
        }
        lemma_bush_count(s@.grid, s@.robot, 0, t_start, easy_state->0.round@, targets@, bb_pick(s@.grid, s@.robot, t_start, 0));
        assert(t_start == lambda_dests(s@.grid));
    }
    while easy_target.is_some()
        invariant
            bush_count(s@.grid, s@.robot, 0, lambda_dests(s@.grid)) == n + count_after(
                s@.grid,
                s@.robot,
                easy_state->0.round@,
                targets@,
                easy_target is Some,
            ),
            sound(s@),
            easy_state matches Some(ps) && ps.wf(s@.grid, s@.robot),
            targets_ok(s@.grid, targets@),
            score == bush_bonus(s.score, n),
            easy_target matches Some((p, t)) ==> inb(s@.grid, t.0 as int, t.1 as int) && cell(s@.grid, t.0 as int, t.1 as int) == Square::Lambda,
            n + present(targets@) + (if easy_target is Some { 1nat } else { 0nat }) <= total,
        decreases (if easy_target is Some { present(targets@) + 1 } else { 0 }),
    {
        let (_path, sq) = easy_target.unwrap();
        match s.grid.at(sq) {
            Square::Lambda => {
                score = score.wrapping_add(LAMBDA_IN_BUSH_SCORE);
            },
            Square::LiftO => {},
            _ => {},
        }
        proof {
            n = n + 1;
        }
        let ghost t_before = targets@;
        let ghost r_before = easy_state->0.round@;
        easy_target = path_easy(s, &mut easy_state, &mut targets);
        proof {
            lemma_bush_count(s@.grid, s@.robot, r_before, t_before, easy_state->0.round@, targets@, bb_pick(s@.grid, s@.robot, t_before, r_before));
            if easy_target is Some {
                lemma_clear_found(t_before, (easy_target->0).1);
            }
        }
    }
    score
}

} // verus!
