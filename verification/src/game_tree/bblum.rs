//! An engine that searches over the order of targets: a search of growing
//! depth, each line finished greedily, that stops early when told to.

use vstd::prelude::*;
use crate::brushfire;
use crate::heuristics;
use crate::path::spec_apply;
use crate::path_find::{PathFind, finder_walks, gen_walks};
use crate::play::{SearchResult, add_path_prefix, forward, lemma_apply_score, lemma_prefix, search_ok, stop_here};
use crate::driver::compare_states;
use crate::state::{Move, State, StateView, board_view, read_board, room, sound, valid_board_text};

verus! {

/// How the engine searches.
pub struct SearchOpts {
    /// How many targets to try at each node.
    pub branch_factor: usize,
    /// Whether to report each path pursued.
    pub verbose: bool,
    /// Whether a signal stops the search.
    pub killable: bool,
    /// The deepest search to try.
    pub max_depth: usize,
    /// Where the targets come from.
    pub path_find: PathFind,
}

/// The usual settings: `branch_factor()` targets per node, quietly, stopped
/// by a signal, up to depth 10, with the brushfire.
pub fn default_opts() -> (o: SearchOpts)
    ensures
        o.branch_factor == 5,
        !o.verbose,
        o.killable,
        o.max_depth == 10,
        o.path_find == PathFind::Brushfire,
{
    SearchOpts {
        branch_factor: heuristics::branch_factor(),
        verbose: false,
        killable: true,
        max_depth: 10,
        path_find: PathFind::Brushfire,
    }
}

/// The usual settings, reporting as asked.
pub fn default_opts_verbose(verbose: bool) -> (o: SearchOpts)
    ensures
        o.branch_factor == 5,
        o.verbose == verbose,
        o.killable,
        o.max_depth == 10,
        o.path_find == PathFind::Brushfire,
{
    SearchOpts { verbose, ..default_opts() }
}

/// The usual settings with `bf` targets per node.
pub fn default_opts_bfac(bf: usize) -> (o: SearchOpts)
    ensures
        o.branch_factor == bf,
        !o.verbose,
        o.killable,
        o.max_depth == 10,
        o.path_find == PathFind::Brushfire,
{
    SearchOpts { branch_factor: bf, ..default_opts() }
}

/// The score of a search result.
pub fn score_result(r: &SearchResult) -> (s: i64)
    ensures
        s == r.2,
{
    r.2
}

/// Repeatedly finds lambdas with the brushfire and walks to them, until
/// none is found or (when killable) the signal says stop; then aborts.
pub fn greedy_finish<F: Fn() -> bool>(s: State, o: &SearchOpts, signal: &F) -> (res: SearchResult)
    requires
        sound(s@),
        room(s@, 0),
        signal.requires(()),
    ensures
        search_ok(s@, res),
        forward(res.0@).is_prefix_of(brushfire::brushfire_run(s@).0),
        o.killable && loud(signal) ==> res.0@ == seq![Move::A] && res.1@ == s@,
        unstopped(o, signal) ==> forward(res.0@) == brushfire::brushfire_run(s@).0 && res.1@ == brushfire::brushfire_run(s@).1,
    decreases s.score + 0x1_0000_0000_0000,
{
    if signal() && o.killable {
        return stop_here(s);
    }
    let mut thunk = brushfire::get_paths(&s);
    let result = thunk.next();
    match result {
        Some((newstate, path)) => {
            proof {
                lemma_apply_score(s@, path@, false);
            }
            let (mut finishing_moves, endstate, score) = greedy_finish(newstate, o, signal);
            let ghost rest = finishing_moves@;
            add_path_prefix(&mut finishing_moves, &path);
            proof {
                lemma_prefix(s@, newstate@, path@, rest, endstate@);
                let whole = brushfire::brushfire_run(s@).0;
                let tail = brushfire::brushfire_run(newstate@).0;
                assert(brushfire::brushfire_first(s@) == Some(path@));
                assert(whole == path@ + tail);
                assert(forward(finishing_moves@) == path@ + forward(rest));
                assert((path@ + tail).subrange(0, (path@ + forward(rest)).len() as int) =~= path@ + forward(rest));
            }
            (finishing_moves, endstate, score)
        },
        None => stop_here(s),
    }
}

/// The first `n` paths of `w`, or all of them when there are fewer.
pub open spec fn walks_take(w: Seq<Seq<Move>>, n: nat) -> Seq<Seq<Move>> {
    if n <= w.len() {
        w.take(n as int)
    } else {
        w
    }
}

/// Taking paths one at a time: the first, then from the rest.
proof fn lemma_walks_take(w: Seq<Seq<Move>>, n: nat)
    requires
        n >= 1,
        w.len() >= 1,
    ensures
        walks_take(w, n) == seq![w[0]] + walks_take(w.drop_first(), (n - 1) as nat),
{
    assert(walks_take(w, n) =~= seq![w[0]] + walks_take(w.drop_first(), (n - 1) as nat));
}

/// The line a search of `depth` levels with finder `f`, `bf` targets a node
/// and no signal, plays from `s`: the moves and the state where they end.
/// At depth 0 the greedy walk with the brushfire; otherwise the best of the
/// lines through the first `bf` paths found, or none when there is no path.
pub open spec fn bb_search(f: PathFind, s: StateView, depth: nat, bf: nat) -> (Seq<Move>, StateView)
    decreases depth, 0nat, 0nat,
{
    if depth == 0 {
        brushfire::brushfire_run(s)
    } else {
        bb_best(f, s, walks_take(finder_walks(f, s), bf), (depth - 1) as nat, bf)
    }
}

/// The best of the lines from `s` that first walk one of `cs` and then
/// search `sub` levels on: the first with the highest final score; stopping
/// at once when `cs` is empty.
pub open spec fn bb_best(f: PathFind, s: StateView, cs: Seq<Seq<Move>>, sub: nat, bf: nat) -> (Seq<Move>, StateView)
    decreases sub, 1nat, cs.len(),
{
    if cs.len() == 0 {
        (Seq::empty(), s)
    } else {
        let prev = bb_best(f, s, cs.drop_last(), sub, bf);
        let p = cs.last();
        let rest = bb_search(f, spec_apply(s, p, false)->Stepped_0, sub, bf);
        if cs.len() == 1 || rest.1.score > prev.1.score {
            (p + rest.0, rest.1)
        } else {
            prev
        }
    }
}

/// The line iterative deepening keeps after depths 1 to `n`: the greedy
/// walk, replaced by each deeper search that scores higher.
pub open spec fn bb_deepen(f: PathFind, s: StateView, n: nat, bf: nat) -> (Seq<Move>, StateView)
    decreases n,
{
    if n == 0 {
        brushfire::brushfire_run(s)
    } else {
        let prev = bb_deepen(f, s, (n - 1) as nat, bf);
        let r = bb_search(f, s, n, bf);
        if r.1.score > prev.1.score {
            r
        } else {
            prev
        }
    }
}

/// The line through candidate path `p` from `s`: `p`, then a search of
/// `sub` levels from where it leads.
pub open spec fn line_through(f: PathFind, s: StateView, p: Seq<Move>, sub: nat, bf: nat) -> (Seq<Move>, StateView) {
    let rest = bb_search(f, spec_apply(s, p, false)->Stepped_0, sub, bf);
    (p + rest.0, rest.1)
}

/// The best line among candidates `cs` is the line through one of them, and
/// scores at least as high as the line through any of them.
pub proof fn law_best_scores_highest(f: PathFind, s: StateView, cs: Seq<Seq<Move>>, sub: nat, bf: nat)
    requires
        cs.len() >= 1,
    ensures
        forall|i: int| 0 <= i < cs.len() ==> bb_best(f, s, cs, sub, bf).1.score >= (#[trigger] line_through(
            f,
            s,
            cs[i],
            sub,
            bf,
        )).1.score,
        exists|i: int| 0 <= i < cs.len() && bb_best(f, s, cs, sub, bf) == #[trigger] line_through(f, s, cs[i], sub, bf),
    decreases cs.len(),
{
    let n = cs.len() - 1;
    let last = line_through(f, s, cs[n], sub, bf);
    assert(cs.last() == cs[n]);
    if cs.len() == 1 {
        assert(bb_best(f, s, cs, sub, bf) == last);
    } else {
        let init = cs.drop_last();
        law_best_scores_highest(f, s, init, sub, bf);
        assert forall|i: int| 0 <= i < cs.len() implies bb_best(f, s, cs, sub, bf).1.score >= (#[trigger] line_through(
            f,
            s,
            cs[i],
            sub,
            bf,
        )).1.score by {
            if i < n {
                assert(init[i] == cs[i]);
            }
        }
        if last.1.score <= bb_best(f, s, init, sub, bf).1.score {
            let i = choose|i: int| 0 <= i < init.len() && bb_best(f, s, init, sub, bf) == #[trigger] line_through(f, s, init[i], sub, bf);
            assert(init[i] == cs[i]);
        }
    }
}

/// Iterative deepening keeps the best: after depths 1 to `n` its line scores
/// at least as high as the greedy walk and as each search of depth 1 to
/// `n`, and it is one of them (the first to reach that score).
pub proof fn law_deepen_keeps_best(f: PathFind, s: StateView, n: nat, bf: nat)
    ensures
        bb_deepen(f, s, n, bf).1.score >= brushfire::brushfire_run(s).1.score,
        forall|d: nat| 1 <= d <= n ==> bb_deepen(f, s, n, bf).1.score >= (#[trigger] bb_search(f, s, d, bf)).1.score,
        bb_deepen(f, s, n, bf) == brushfire::brushfire_run(s) || exists|d: nat|
            1 <= d <= n && bb_deepen(f, s, n, bf) == #[trigger] bb_search(f, s, d, bf),
    decreases n,
{
    if n > 0 {
        law_deepen_keeps_best(f, s, (n - 1) as nat, bf);
        let prev = bb_deepen(f, s, (n - 1) as nat, bf);
        let r = bb_search(f, s, n, bf);
        assert forall|d: nat| 1 <= d <= n implies bb_deepen(f, s, n, bf).1.score >= (#[trigger] bb_search(
            f,
            s,
            d,
            bf,
        )).1.score by {
            if d < n {
                assert(prev.1.score >= bb_search(f, s, d, bf).1.score);
            }
        }
        if r.1.score > prev.1.score {
            assert(bb_deepen(f, s, n, bf) == bb_search(f, s, n, bf));
        } else if prev != brushfire::brushfire_run(s) {
            let d = choose|d: nat| 1 <= d <= (n - 1) as nat && prev == #[trigger] bb_search(f, s, d, bf);
            assert(bb_deepen(f, s, n, bf) == bb_search(f, s, d, bf));
        }
    }
}

/// A path the brushfire search answers is one the robot survives.
proof fn lemma_bb_next_survives(s: StateView, from: nat, t: Seq<Option<crate::state::Coord>>)
    ensures
        brushfire::bb_next(s, from, t).2 matches Some(p) ==> crate::play::survives(s, p),
    decreases brushfire::present(t),
{
    let g = s.grid;
    let src = s.robot;
    let r = crate::path::search_end(g, src, t, from);
    if let Some((p, c)) = brushfire::bb_pick(g, src, t, from) {
        let t2 = brushfire::clear_first(t, Some(c));
        if !crate::play::survives(s, p) && brushfire::present(t2) < brushfire::present(t) {
            lemma_bb_next_survives(s, r, t2);
        }
    }
}

/// A search with one target a node plays the greedy game of the brushfire,
/// at any depth.
pub proof fn law_one_branch_is_greedy(s: StateView, depth: nat)
    ensures
        bb_search(PathFind::Brushfire, s, depth, 1) == brushfire::brushfire_run(s),
    decreases depth,
{
    if depth > 0 {
        let t = crate::play::lambda_dests(s.grid);
        let w = finder_walks(PathFind::Brushfire, s);
        let x = brushfire::bb_next(s, 0, t);
        assert(w == brushfire::bb_walks(s, 0, t));
        assert(brushfire::brushfire_first(s) == x.2);
        lemma_bb_next_survives(s, 0, t);
        match x.2 {
            Some(p) => {
                assert(w.len() >= 1 && w[0] == p);
                assert(walks_take(w, 1) =~= seq![p]);
                let cs = seq![p];
                assert(cs.drop_last() =~= Seq::<Seq<Move>>::empty());
                let child = spec_apply(s, p, false)->Stepped_0;
                law_one_branch_is_greedy(child, (depth - 1) as nat);
                lemma_apply_score(s, p, false);
                if p.len() == 0 {
                    assert(p =~= Seq::<Move>::empty());
                    assert(child == s);
                    assert(brushfire::brushfire_run(s) == (Seq::<Move>::empty(), s));
                    assert(p + brushfire::brushfire_run(s).0 =~= Seq::<Move>::empty());
                }
            },
            None => {
                assert(w =~= Seq::<Seq<Move>>::empty());
                assert(walks_take(w, 1) =~= Seq::<Seq<Move>>::empty());
            },
        }
    }
}

/// The signal never says stop.
pub open spec fn quiet<F: Fn() -> bool>(signal: &F) -> bool {
    forall|b: bool| call_ensures(*signal, (), b) ==> !b
}

/// The signal always says stop.
pub open spec fn loud<F: Fn() -> bool>(signal: &F) -> bool {
    forall|b: bool| call_ensures(*signal, (), b) ==> b
}

/// No signal stops the engine: it is not killable, or the signal is quiet.
pub open spec fn unstopped<F: Fn() -> bool>(o: &SearchOpts, signal: &F) -> bool {
    !o.killable || quiet(signal)
}



/// Searches `depth` levels of targets from the path finder, `branch_factor`
/// at each node, finishing each line greedily; answers the best line found
/// (the first of the best scores). Stops at once when (killable and) told
/// to, or when no target is found.
pub fn search<F: Fn() -> bool>(s: State, depth: usize, o: &SearchOpts, signal: &F) -> (res: SearchResult)
    requires
        sound(s@),
        room(s@, 0),
        signal.requires(()),
    ensures
        search_ok(s@, res),
        o.killable && loud(signal) ==> res.0@ == seq![Move::A] && res.1@ == s@,
        unstopped(o, signal) ==> forward(res.0@) == bb_search(o.path_find, s@, depth as nat, o.branch_factor as nat).0 && res.1@
            == bb_search(o.path_find, s@, depth as nat, o.branch_factor as nat).1,
    decreases depth,
{
    let ghost bf = o.branch_factor as nat;
    let ghost plain = unstopped(o, signal);
    let mut best: Option<SearchResult> = None;
    let mut best_score: Option<i64> = None;
    let mut pathlist = o.path_find.get_paths(&s);
    if signal() && o.killable {
        return stop_here(s);
    }
    if depth == 0 {
        return greedy_finish(s, o, signal);
    }
    let ghost sub = (depth - 1) as nat;
    let ghost mut done: Seq<Seq<Move>> = Seq::empty();
    let mut k: usize = 0;
    while k < o.branch_factor
        invariant_except_break
            plain ==> walks_take(finder_walks(o.path_find, s@), bf) == done + walks_take(gen_walks(pathlist), (bf - k) as nat),
        invariant
            sound(s@),
            room(s@, 0),
            depth > 0,
            signal.requires(()),
            pathlist.ok(),
            pathlist.start() == s@,
            best is Some <==> best_score is Some,
            best matches Some(b) ==> search_ok(s@, b) && best_score == Some(b.2),
            bf == o.branch_factor,
            plain == unstopped(o, signal),
            sub == depth - 1,
            k <= bf,
            done.len() == k,
            best is Some <==> done.len() > 0,
            plain && best is Some ==> forward((best->0).0@) == bb_best(o.path_find, s@, done, sub, bf).0 && (best->0).1@ == bb_best(
                o.path_find,
                s@,
                done,
                sub,
                bf,
            ).1,
        ensures
            plain ==> walks_take(finder_walks(o.path_find, s@), bf) == done,
        decreases o.branch_factor - k,
    {
        let ghost w0 = gen_walks(pathlist);
        let target_opt = pathlist.next();
        proof {
            if plain && target_opt is Some {
                lemma_walks_take(w0, (bf - k) as nat);
                assert(w0.drop_first() =~= gen_walks(pathlist));
            }
        }
        match target_opt {
            Some((newstate, path)) => {
                let (mut finishing_moves, endstate, this_score) = search(newstate, depth - 1, o, signal);
                let ghost done2 = done.push(path@);
                proof {
                    assert(done2.drop_last() =~= done);
                    assert(done2.last() == path@);
                    if plain {
                        let rest = walks_take(gen_walks(pathlist), (bf - (k + 1)) as nat);
                        assert(done + (seq![path@] + rest) =~= done2 + rest);
                    }
                }
                if best_score.is_none() || this_score > best_score.unwrap() {
                    let ghost rest = finishing_moves@;
                    add_path_prefix(&mut finishing_moves, &path);
                    proof {
                        lemma_prefix(s@, newstate@, path@, rest, endstate@);
                    }
                    best = Some((finishing_moves, endstate, this_score));
                    best_score = Some(this_score);
                }
                proof {
                    done = done2;
                }
            },
            None => {
                proof {
                    if plain {
                        assert(walks_take(w0, (bf - k) as nat) =~= Seq::<Seq<Move>>::empty());
                    }
                    assert(done + Seq::<Seq<Move>>::empty() =~= done);
                }
                break;
            },
        }
        k += 1;
    }
    proof {
        if plain && k == bf {
            assert(done + walks_take(gen_walks(pathlist), 0) =~= done);
        }
    }
    match best {
        Some(b) => b,
        None => stop_here(s),
    }
}

/// Searches deeper and deeper, from depth 1 up to the deepest allowed,
/// starting from a greedy game that no signal cuts short, and keeps the
/// best result; stops early when (killable and) told to.
pub fn iterative_search<F: Fn() -> bool>(s: State, o: &SearchOpts, signal: &F) -> (res: SearchResult)
    requires
        sound(s@),
        room(s@, 0),
        signal.requires(()),
        o.max_depth < usize::MAX,
    ensures
        search_ok(s@, res),
        unstopped(o, signal) ==> forward(res.0@) == bb_deepen(o.path_find, s@, o.max_depth as nat, o.branch_factor as nat).0
            && res.1@ == bb_deepen(o.path_find, s@, o.max_depth as nat, o.branch_factor as nat).1,
{
    let mut depth: usize = 1;
    let unkillable = SearchOpts {
        branch_factor: o.branch_factor,
        verbose: o.verbose,
        killable: false,
        max_depth: o.max_depth,
        path_find: o.path_find,
    };
    let mut best_result = greedy_finish(s.copy(), &unkillable, signal);
    while depth <= o.max_depth && !(signal() && o.killable)
        invariant
            sound(s@),
            room(s@, 0),
            signal.requires(()),
            o.max_depth < usize::MAX,
            1 <= depth <= o.max_depth + 1,
            search_ok(s@, best_result),
            unstopped(o, signal) ==> forward(best_result.0@) == bb_deepen(o.path_find, s@, (depth - 1) as nat, o.branch_factor as nat).0
                && best_result.1@ == bb_deepen(o.path_find, s@, (depth - 1) as nat, o.branch_factor as nat).1,
        decreases o.max_depth + 1 - depth,
    {
        let result = search(s.copy(), depth, o, signal);
        proof {
            assert((depth + 1 - 1) as nat == depth as nat);
            assert(((depth as nat) - 1) as nat == (depth - 1) as nat);
        }
        if score_result(&result) > score_result(&best_result) {
            best_result = result;
        }
        depth += 1;
    }
    best_result
}

/// Reads a board and sets the engine's search, `depth` levels deep and `bf`
/// targets a node (with the usual settings otherwise), against its greedy
/// game: answers whether the search scores higher (at equal scores the two
/// must also end on the same board, which cannot make the answer yes). A
/// board that is not a sound mine, or whose lambdas overflow the counters,
/// fails the comparison.
pub fn test_search_vs_greedy<F: Fn() -> bool>(mapstr: &str, depth: usize, bf: usize, signal: &F) -> (ok: bool)
    requires
        valid_board_text(mapstr@),
        signal.requires(()),
    ensures
        quiet(signal) ==> ok == (sound(board_view(mapstr@)) && room(board_view(mapstr@), 0) && bb_search(
            PathFind::Brushfire,
            board_view(mapstr@),
            depth as nat,
            bf as nat,
        ).1.score > brushfire::brushfire_run(board_view(mapstr@)).1.score),
{
    let s = read_board(mapstr);
    if !s.is_sound() || !s.has_room(0) {
        return false;
    }
    let (_, endstate, score) = greedy_finish(s.copy(), &default_opts(), signal);
    let (_, endstate2, score2) = search(s, depth, &default_opts_bfac(bf), signal);
    if score2 == score && !compare_states(&endstate, &endstate2) {
        return false;
    }
    score2 > score
}

/// The engine's plan: the moves of the best line found, first first,
/// ending with the abort.
pub fn get_path<F: Fn() -> bool>(o: &SearchOpts, s: State, signal: &F) -> (moves: Vec<Move>)
    requires
        sound(s@),
        room(s@, 0),
        signal.requires(()),
        o.max_depth < usize::MAX,
    ensures
        moves@.len() >= 1,
        moves@.last() == Move::A,
        exists|end: crate::state::StateView| crate::path::spec_apply(s@, moves@.drop_last(), false)
            == crate::state::StepView::Stepped(end),
        unstopped(o, signal) ==> moves@ == bb_deepen(o.path_find, s@, o.max_depth as nat, o.branch_factor as nat).0.push(Move::A),
{
    let (moves_rev, _endstate, _score) = iterative_search(s, o, signal);
    let mut moves: Vec<Move> = Vec::new();
    let mut i: usize = moves_rev.len();
    while i > 0
        invariant
            i <= moves_rev@.len(),
            moves@ == moves_rev@.reverse().take(moves_rev@.len() - i),
        decreases i,
    {
        moves.push(moves_rev[i - 1]);
        proof {
            assert(moves_rev@.reverse().take(moves_rev@.len() - i + 1) =~= moves_rev@.reverse().take(
                moves_rev@.len() - i,
            ).push(moves_rev@[i - 1]));
        }
        i -= 1;
    }
    proof {
        assert(moves_rev@.reverse().take(moves_rev@.len() as int) =~= moves_rev@.reverse());
        assert(moves@.drop_last() =~= forward(moves_rev@));
        assert(moves@ =~= moves@.drop_last().push(moves@.last()));
    }
    moves
}

} // verus!
