//! An engine that looks a few targets ahead: from each state it picks the
//! first path of the best line it can see within a depth, walks it, and
//! goes on from there.

use vstd::prelude::*;
use crate::path::{Path, spec_apply};
use crate::path_find::{PathFind, PathGen, finder_walks, gen_walks};
use crate::play::{lemma_apply_concat, lemma_apply_score};
use crate::state::{Move, State, StateView, StepResult, StepView, lemma_sound_step_defined, law_step_keeps_sound, lemma_step_score, room, sound};

verus! {

/// The engine's settings: its path finder.
pub struct Settings {
    pub path_find: PathFind,
}

/// The engine with path finder `o`.
pub fn mk(o: PathFind) -> (s: Settings)
    ensures
        s.path_find == o,
{
    Settings { path_find: o }
}

/// The signal never says stop.
pub open spec fn plain<F: Fn() -> bool>(opts: &Settings, signal: &F) -> bool {
    crate::game_tree::bblum::quiet(signal)
}

/// The state a path leads to.
pub open spec fn child(s: StateView, p: Seq<Move>) -> StateView {
    spec_apply(s, p, false)->Stepped_0
}

/// A line of paths as moves.
pub open spec fn lview(v: Seq<Path>) -> Seq<Seq<Move>> {
    v.map_values(|p: Path| p@)
}

/// A best line and its score, as moves.
pub open spec fn bview(b: (Vec<Path>, i64)) -> (Seq<Seq<Move>>, int) {
    (lview(b.0@), b.1 as int)
}

/// What the search notes, in order, exploring the paths finder `f` finds from `s`
/// with line `line` at depth `level`: for each path found, the line it
/// makes (the path is left off at the deepest level) with the score of the
/// state it leads to, and below it, while the line is shorter than `depth`,
/// what exploring that state notes.
pub open spec fn events(f: PathFind, s: StateView, line: Seq<Seq<Move>>, level: nat, depth: nat) -> Seq<(Seq<Seq<Move>>, int)>
    decreases depth - level, 1nat, 0nat,
{
    events_list(f, s, finder_walks(f, s), line, level, depth)
}

/// What the search notes exploring paths `ch` from `s`, one after the other.
pub open spec fn events_list(
    f: PathFind,
    s: StateView,
    ch: Seq<Seq<Move>>,
    line: Seq<Seq<Move>>,
    level: nat,
    depth: nat,
) -> Seq<(Seq<Seq<Move>>, int)>
    decreases depth - level, 0nat, ch.len(),
{
    if ch.len() == 0 {
        Seq::empty()
    } else {
        let p = ch[0];
        let s2 = child(s, p);
        let here = if level < depth {
            seq![(line.push(p), s2.score)] + events(f, s2, line.push(p), level + 1, depth)
        } else {
            seq![(line, s2.score)]
        };
        here + events_list(f, s, ch.drop_first(), line, level, depth)
    }
}

/// The best of noted lines `evs` and `cur`: each one that scores higher than
/// the best so far replaces it.
pub open spec fn best_of(evs: Seq<(Seq<Seq<Move>>, int)>, cur: (Seq<Seq<Move>>, int)) -> (Seq<Seq<Move>>, int)
    decreases evs.len(),
{
    if evs.len() == 0 {
        cur
    } else {
        best_of(evs.drop_first(), if evs[0].1 > cur.1 { evs[0] } else { cur })
    }
}

/// Taking the best of two runs of notes is taking the best of the first,
/// then of the second.
proof fn lemma_best_of_concat(a: Seq<(Seq<Seq<Move>>, int)>, b: Seq<(Seq<Seq<Move>>, int)>, cur: (Seq<Seq<Move>>, int))
    ensures
        best_of(a + b, cur) == best_of(b, best_of(a, cur)),
    decreases a.len(),
{
    if a.len() > 0 {
        assert((a + b).drop_first() =~= a.drop_first() + b);
        assert((a + b)[0] == a[0]);
        lemma_best_of_concat(a.drop_first(), b, if a[0].1 > cur.1 { a[0] } else { cur });
    }
}

/// The best of one note and `cur`.
proof fn lemma_best_of_one(e: (Seq<Seq<Move>>, int), cur: (Seq<Seq<Move>>, int))
    ensures
        best_of(seq![e], cur) == if e.1 > cur.1 { e } else { cur },
{
    reveal_with_fuel(best_of, 2);
    assert(seq![e].drop_first() =~= Seq::<(Seq<Seq<Move>>, int)>::empty());
    assert(seq![e][0] == e);
}

/// The first path of the best line finder `f` finds from `s` within
/// `depth` paths, when the best scores above 0.
pub open spec fn top_option(f: PathFind, s: StateView, depth: nat) -> Option<Seq<Move>> {
    let b = best_of(events(f, s, seq![Seq::empty()], 1, depth), (Seq::empty(), 0));
    if b.0.len() <= 1 {
        None
    } else {
        Some(b.0[1])
    }
}

/// The second path of a line (the first after the empty start) leads, from
/// `s`, to a sound state with room left.
pub open spec fn first_step_ok(s: StateView, line: Seq<Path>) -> bool {
    line.len() >= 2 ==> {
        &&& line[1]@.len() >= 1
        &&& exists|s2: StateView| spec_apply(s, line[1]@, false) == StepView::Stepped(s2) && sound(s2)
            && room(s2, 0)
    }
}

/// A copy of a line of paths.
fn copy_paths(v: &Vec<Path>) -> (c: Vec<Path>)
    ensures
        c@.len() == v@.len(),
        forall|i: int| 0 <= i < v@.len() ==> (#[trigger] c@[i])@ == v@[i]@,
{
    let mut c: Vec<Path> = Vec::new();
    let mut i: usize = 0;
    while i < v.len()
        invariant
            i <= v@.len(),
            c@.len() == i,
            forall|k: int| 0 <= k < i ==> (#[trigger] c@[k])@ == v@[k]@,
        decreases v@.len() - i,
    {
        let p = v[i].clone();
        proof {
            assert(p@ == v@[i as int]@);
        }
        c.push(p);
        i += 1;
    }
    c
}

/// A line with the same paths satisfies the same.
proof fn lemma_first_step_same(s: StateView, a: Seq<Path>, b: Seq<Path>)
    requires
        a.len() == b.len(),
        forall|i: int| 0 <= i < a.len() ==> (#[trigger] a[i])@ == b[i]@,
        first_step_ok(s, b),
    ensures
        first_step_ok(s, a),
{
    if a.len() >= 2 {
        assert(a[1]@ == b[1]@);
    }
}

/// Pulls every path out of `gen` (the generator at depth `level` of the
/// line `fullpath`), following each path into a fresh generator while the
/// line is shorter than `depth`, and keeps in `best` the line leading to the
/// best score seen. Answers whether the signal stopped the search.
fn explore<F: Fn() -> bool>(
    opts: &Settings,
    s: &State,
    gen: &mut PathGen,
    level: usize,
    depth: usize,
    fullpath: &mut Vec<Path>,
    best: &mut (Vec<Path>, i64),
    signal: &F,
) -> (stopped: bool)
    requires
        signal.requires(()),
        old(gen).ok(),
        sound(old(gen).start()),
        room(old(gen).start(), 0),
        1 <= level,
        old(fullpath)@.len() == level,
        level == 1 ==> old(gen).start() == s@,
        first_step_ok(s@, old(fullpath)@),
        first_step_ok(s@, old(best).0@),
    ensures
        first_step_ok(s@, final(best).0@),
        final(fullpath)@ == old(fullpath)@,
        plain(opts, signal) ==> !stopped && bview(*final(best)) == best_of(
            events_list(opts.path_find, old(gen).start(), gen_walks(*old(gen)), lview(old(fullpath)@), level as nat, depth as nat),
            bview(*old(best)),
        ),
    decreases depth - level,
{
    let ghost fp0 = fullpath@;
    let ghost st0 = gen.start();
    let ghost ev0 = events_list(opts.path_find, st0, gen_walks(*gen), lview(fp0), level as nat, depth as nat);
    let ghost b0 = bview(*best);
    let ghost mut done: Seq<(Seq<Seq<Move>>, int)> = Seq::empty();
    proof {
        assert(ev0 =~= done + ev0);
    }
    loop
        invariant
            signal.requires(()),
            gen.ok(),
            sound(gen.start()),
            room(gen.start(), 0),
            1 <= level,
            fullpath@ == fp0,
            fp0 == old(fullpath)@,
            fp0.len() == level,
            level == 1 ==> gen.start() == s@,
            first_step_ok(s@, fullpath@),
            first_step_ok(s@, best.0@),
            gen.start() == st0,
            st0 == old(gen).start(),
            ev0 == events_list(opts.path_find, old(gen).start(), gen_walks(*old(gen)), lview(old(fullpath)@), level as nat, depth as nat),
            b0 == bview(*old(best)),
            plain(opts, signal) ==> ev0 == done + events_list(opts.path_find, st0, gen_walks(*gen), lview(fp0), level as nat, depth as nat),
            plain(opts, signal) ==> bview(*best) == best_of(done, b0),
        decreases gen.measure(),
    {
        if signal() {
            return true;
        }
        let ghost st = gen.start();
        let ghost g0 = *gen;
        let next = gen.next();

        match next {
            None => {
                proof {
                    if plain(opts, signal) {
                        assert(done + Seq::<(Seq<Seq<Move>>, int)>::empty() =~= done);
                    }
                }
                return false;
            },
            Some((news, path)) => {
                let ghost here = if (level as nat) < (depth as nat) {
                    seq![(lview(fp0).push(path@), news@.score)] + events(opts.path_find, news@, lview(fp0).push(path@), level as nat + 1, depth as nat)
                } else {
                    seq![(lview(fp0), news@.score)]
                };
                let ghost bb = bview(*best);
                proof {
                    if plain(opts, signal) {
                        assert(child(st0, path@) == news@);
                        let ch = gen_walks(g0);
                        assert(ch[0] == path@);
                        assert(ch.drop_first() =~= gen_walks(*gen));
                        assert(events_list(opts.path_find, st0, gen_walks(g0), lview(fp0), level as nat, depth as nat) == here
                            + events_list(opts.path_find, st0, gen_walks(*gen), lview(fp0), level as nat, depth as nat));
                        assert(ev0 =~= (done + here) + events_list(opts.path_find, st0, gen_walks(*gen), lview(fp0), level as nat, depth as nat));
                        lemma_best_of_concat(done, here, b0);
                    }
                }
                if level < depth {
                    let ghost pb = fullpath@;
                    fullpath.push(path);
                    proof {
                        if fullpath@.len() >= 2 {
                            if level == 1 {
                                assert(fullpath@[1] == path);
                            } else {
                                assert(fullpath@[1] == pb[1]);
                            }
                        }
                        assert(lview(fullpath@) =~= lview(fp0).push(path@));
                    }
                    if news.score > best.1 {
                        let line = copy_paths(fullpath);
                        proof {
                            lemma_first_step_same(s@, line@, fullpath@);
                            assert(lview(line@) =~= lview(fullpath@));
                        }
                        *best = (line, news.score);
                    }
                    let ghost bm = bview(*best);
                    proof {
                        let e = (lview(fp0).push(path@), news@.score);
                        lemma_best_of_one(e, bb);
                        assert(best_of(seq![e], bb) == bm);
                    }
                    let mut child_gen = opts.path_find.get_paths(&news);
                    let stopped = explore(opts, s, &mut child_gen, level + 1, depth, fullpath, best, signal);
                    fullpath.pop();
                    proof {
                        assert(fullpath@ =~= fp0);
                        if plain(opts, signal) {
                            let e = (lview(fp0).push(path@), news@.score);
                            let sub = events(opts.path_find, news@, lview(fp0).push(path@), level as nat + 1, depth as nat);
                            lemma_best_of_concat(seq![e], sub, bb);
                            assert(here == seq![e] + sub);
                        }
                    }
                    if stopped {
                        return true;
                    }
                } else {
                    if news.score > best.1 {
                        let line = copy_paths(fullpath);
                        proof {
                            lemma_first_step_same(s@, line@, fullpath@);
                            assert(lview(line@) =~= lview(fullpath@));
                        }
                        *best = (line, news.score);
                    }
                    proof {
                        let e = (lview(fp0), news@.score);
                        lemma_best_of_one(e, bb);
                    }
                }
                proof {
                    done = done + here;
                }
            },
        }
    }
}

/// Playing on from `s`, where the search answered `o`: walk the path it
/// answered (when the counters have room for it) and search again from
/// where it leads, until it answers nothing. The moves and the state where
/// they end. (Each path costs points, so the score falls with each one and
/// the play ends.)
pub open spec fn tob_from(f: PathFind, s: StateView, o: Option<Seq<Move>>, depth: nat) -> (Seq<Move>, StateView)
    decreases s.score + 0x1_0000_0000_0000,
{
    match o {
        Some(p) => if room(s, p.len() as int) {
            match spec_apply(s, p, false) {
                StepView::Stepped(s2) => if 0 <= s2.score + 0x1_0000_0000_0000 < s.score + 0x1_0000_0000_0000 {
                    let r = tob_from(f, s2, top_option(f, s2, depth), depth);
                    (p + r.0, r.1)
                } else {
                    (Seq::empty(), s)
                },
                _ => (Seq::empty(), s),
            }
        } else {
            (Seq::empty(), s)
        },
        None => (Seq::empty(), s),
    }
}

/// From `s`, the first path of the best line within `depth` paths (the line
/// reaching the best score above 0 seen first), or nothing when there is
/// none or the depth is too shallow to hold one.
pub fn get_best_top_option<F: Fn() -> bool>(opts: &Settings, s: &State, depth: usize, signal: &F) -> (res: Option<Path>)
    requires
        sound(s@),
        room(s@, 0),
        signal.requires(()),
    ensures
        res matches Some(p) ==> p@.len() >= 1 && exists|s2: StateView|
            spec_apply(s@, p@, false) == StepView::Stepped(s2) && sound(s2) && room(s2, 0),
        plain(opts, signal) ==> top_option(opts.path_find, s@, depth as nat) == match res {
            Some(p) => Some(p@),
            None => None,
        },
{
    let mut best: (Vec<Path>, i64) = (Vec::new(), 0);
    let mut fullpath: Vec<Path> = Vec::new();
    fullpath.push(Vec::new());
    let mut root = opts.path_find.get_paths(s);
    proof {
        assert(lview(fullpath@) =~= seq![Seq::<Move>::empty()]);
        assert(bview(best) == (Seq::<Seq<Move>>::empty(), 0int)) by {
            assert(lview(best.0@) =~= Seq::<Seq<Move>>::empty());
        }
    }
    if !signal() {
        let _ = explore(opts, s, &mut root, 1, depth, &mut fullpath, &mut best, signal);
    }
    proof {
        assert(lview(best.0@).len() == best.0@.len());
    }
    if best.0.len() <= 1 {
        None
    } else {
        let p = best.0[1].clone();
        proof {
            assert(p@ == best.0@[1]@);
        }
        Some(p)
    }
}

/// Plays the best first paths one after the other, each chosen anew from
/// where the last led, until none is found, the signal says stop, a move
/// ends the game, or the counters have no room for a move. Answers the
/// moves played and the points: those of the game's end, or the score of
/// the state reached.
pub fn get_path_depth<F: Fn() -> bool>(opts: &Settings, s: State, depth: usize, signal: &F) -> (res: (Vec<Move>, i64))
    requires
        sound(s@),
        room(s@, 0),
        signal.requires(()),
    ensures
        exists|end: StateView| spec_apply(s@, res.0@, false) == StepView::Stepped(end) && res.1 == end.score,
        plain(opts, signal) ==> res.0@ == tob_from(opts.path_find, s@, top_option(opts.path_find, s@, depth as nat), depth as nat).0 && res.1
            == tob_from(opts.path_find, s@, top_option(opts.path_find, s@, depth as nat), depth as nat).1.score,
{
    let mut result = get_best_top_option(opts, &s, depth, signal);
    let mut fullpath: Vec<Move> = Vec::new();
    let mut state = s.copy();
    let ghost whole_run = tob_from(opts.path_find, s@, top_option(opts.path_find, s@, depth as nat), depth as nat);
    proof {
        assert(fullpath@ + whole_run.0 =~= whole_run.0);
    }
    while result.is_some() && !signal()
        invariant
            sound(state@),
            room(state@, 0),
            signal.requires(()),
            spec_apply(s@, fullpath@, false) == StepView::Stepped(state@),
            result matches Some(p) ==> p@.len() >= 1 && exists|s2: StateView|
                spec_apply(state@, p@, false) == StepView::Stepped(s2) && sound(s2) && room(s2, 0),
            whole_run == tob_from(opts.path_find, s@, top_option(opts.path_find, s@, depth as nat), depth as nat),
            plain(opts, signal) ==> top_option(opts.path_find, state@, depth as nat) == match result {
                Some(p) => Some(p@),
                None => None,
            },
            plain(opts, signal) ==> whole_run.0 == fullpath@ + tob_from(opts.path_find, state@, top_option(opts.path_find, state@, depth as nat), depth as nat).0
                && whole_run.1 == tob_from(opts.path_find, state@, top_option(opts.path_find, state@, depth as nat), depth as nat).1,
        decreases state.score + 0x1_0000_0000_0000,
    {
        let path = result.unwrap();
        if !state.has_room(path.len()) {
            proof {
                if plain(opts, signal) {
                    assert(fullpath@ + Seq::<Move>::empty() =~= fullpath@);
                }
            }
            return (fullpath, state.score);
        }
        let ghost before = fullpath@;
        let ghost st0 = state@;
        let ghost s2 = choose|s2: StateView|
            spec_apply(state@, path@, false) == StepView::Stepped(s2) && sound(s2) && room(s2, 0);
        let mut whole = path.clone();
        fullpath.append(&mut whole);
        proof {
            assert(path@.skip(0) =~= path@);
            assert(before + path@.take(0) =~= before);
        }
        let mut i: usize = 0;
        while i < path.len()
            invariant
                sound(state@),
                i <= path@.len(),
                path@.len() >= 1,
                room(state@, path@.len() - i),
                spec_apply(s@, before + path@.take(i as int), false) == StepView::Stepped(state@),
                spec_apply(state@, path@.skip(i as int), false) == StepView::Stepped(s2),
                fullpath@ == before + path@,
                state.score == st0.score - i,
            decreases path@.len() - i,
        {
            let mv = path[i];
            let ghost rest = path@.skip(i as int);
            proof {
                assert(rest[0] == mv);
                assert(rest.drop_first() =~= path@.skip(i + 1));
                lemma_sound_step_defined(state@, mv);
                law_step_keeps_sound(state@, mv, false, path@.len() - i);
                lemma_step_score(state@, mv, false);
            }
            match state.step(mv, false) {
                StepResult::Stepped(ns) => {
                    proof {
                        let a = before + path@.take(i as int);
                        assert(before + path@.take(i + 1) =~= a + seq![mv]);
                        lemma_apply_concat(s@, a, seq![mv], false);
                        assert(seq![mv].drop_first() =~= Seq::<Move>::empty());
                        assert(seq![mv][0] == mv);
                        assert(spec_apply(ns@, seq![mv].drop_first(), false) == StepView::Stepped(ns@));
                        assert(spec_apply(state@, seq![mv], false) == StepView::Stepped(ns@));
                    }
                    state = ns;
                },
                StepResult::Endgame(pts) => {
                    proof {
                        assert(false);
                    }
                    return (fullpath, pts);
                },
                StepResult::Oops => {
                    proof {
                        assert(false);
                    }
                    return (fullpath, state.score);
                },
            }
            i += 1;
        }
        proof {
            assert(path@.take(i as int) =~= path@);
            assert(path@.skip(i as int) =~= Seq::<Move>::empty());
            assert(spec_apply(st0, path@, false) == StepView::Stepped(state@)) by {
                assert(spec_apply(state@, Seq::<Move>::empty(), false) == StepView::Stepped(state@));
            }
            lemma_apply_score(st0, path@, false);
            if plain(opts, signal) {
                let r = tob_from(opts.path_find, state@, top_option(opts.path_find, state@, depth as nat), depth as nat);
                assert(tob_from(opts.path_find, st0, Some(path@), depth as nat) == (path@ + r.0, r.1));
                assert(before + (path@ + r.0) =~= (before + path@) + r.0);
            }
        }
        result = get_best_top_option(opts, &state, depth, signal);
    }
    proof {
        if plain(opts, signal) {
            assert(fullpath@ + Seq::<Move>::empty() =~= fullpath@);
        }
    }
    (fullpath, state.score)
}

/// The best of the games played looking 0, 1, ... `n - 1` paths ahead, as
/// moves and points: the first game that scores highest, when its score is
/// above zero, else no moves and zero.
pub open spec fn tob_deepen(f: PathFind, s: StateView, n: nat) -> (Seq<Move>, int)
    decreases n,
{
    if n == 0 {
        (Seq::empty(), 0)
    } else {
        let prev = tob_deepen(f, s, (n - 1) as nat);
        let run = tob_from(f, s, top_option(f, s, (n - 1) as nat), (n - 1) as nat);
        if run.1.score > prev.1 {
            (run.0, run.1.score as int)
        } else {
            prev
        }
    }
}

/// The engine's plan: plays the game looking 0, 1, 2, ... paths ahead, one
/// depth after the other until the signal says stop, and answers the moves
/// of the first game that scored highest, when that is above zero, else no
/// moves. (Only the machine's largest depth ends a search that no signal
/// stops.)
pub fn get_path<F: Fn() -> bool>(opts: &Settings, s: State, signal: &F) -> (res: Vec<Move>)
    requires
        sound(s@),
        room(s@, 0),
        signal.requires(()),
    ensures
        exists|end: StateView| spec_apply(s@, res@, false) == StepView::Stepped(end) && (res@.len() > 0
            ==> end.score > 0),
        plain(opts, signal) ==> res@ == tob_deepen(opts.path_find, s@, usize::MAX as nat).0,
{
    let mut bestpath: Vec<Move> = Vec::new();
    let mut bestscore: i64 = 0;
    let mut depth: usize = 0;
    proof {
        assert(spec_apply(s@, bestpath@, false) == StepView::Stepped(s@));
    }
    while depth < usize::MAX && !signal()
        invariant
            sound(s@),
            room(s@, 0),
            signal.requires(()),
            bestscore >= 0,
            bestscore == 0 ==> bestpath@.len() == 0,
            exists|end: StateView| spec_apply(s@, bestpath@, false) == StepView::Stepped(end) && (bestscore
                > 0 ==> end.score == bestscore),
            plain(opts, signal) ==> bestpath@ == tob_deepen(opts.path_find, s@, depth as nat).0
                && bestscore as int == tob_deepen(opts.path_find, s@, depth as nat).1,
        decreases usize::MAX - depth,
    {
        let (path, score) = get_path_depth(opts, s.copy(), depth, signal);
        if score > bestscore {
            bestpath = path;
            bestscore = score;
        }
        depth += 1;
    }
    bestpath
}

} // verus!
