//! An engine meant to search from a queue of work items: each a line of
//! paths to replay and a horizon to search from. Adding work to the queue
//! is not written yet, so a search that finds a target ends in the
//! `Unfinished` error; only the greedy game and a search that finds nothing
//! complete.

use vstd::prelude::*;
use crate::brushfire;
use crate::dlist::{DList, from_elt};
use crate::evaluate::{eval_of, evaluate};
use crate::heuristics;
use crate::path::{Path, spec_apply};
use crate::path_find::{PathFind, finder_walks, gen_walks};
use crate::play::{lemma_apply_concat, lemma_apply_score};
use crate::driver::compare_states;
use crate::state::{Move, State, StateView, StepView, board_view, read_board, room, sound, valid_board_text};

verus! {

/// The paths of a line, last first: the moves they make, first first.
pub open spec fn line_moves(v: Seq<Path>) -> Seq<Move>
    decreases v.len(),
{
    if v.len() == 0 {
        Seq::empty()
    } else {
        v.last()@ + line_moves(v.drop_last())
    }
}

/// The paths of the line found (last first), the state it leads to, and
/// that state's score.
pub type SearchResult = (Vec<Path>, State, i64);

/// A search result keeps its promises: its line, played from `s`, leads to
/// its state, whose score is its score.
pub open spec fn search_ok(s: StateView, res: SearchResult) -> bool {
    &&& spec_apply(s, line_moves(res.0@), false) == StepView::Stepped(res.1@)
    &&& sound(res.1@)
    &&& room(res.1@, 0)
    &&& res.2 == res.1.score
}

/// How the engine searches, and the line it is working on.
pub struct SearchOpts {
    pub branch_factor: usize,
    pub verbose: bool,
    pub killable: bool,
    pub max_depth: usize,
    pub path_find: PathFind,
    /// The paths of the line being worked on, first first.
    pub move_stack: Vec<Path>,
}

/// Pushes a path on the line being worked on.
pub fn stack_path(p: &Path, o: &mut SearchOpts)
    ensures
        final(o).move_stack@.len() == old(o).move_stack@.len() + 1,
        final(o).move_stack@.last()@ == p@,
        forall|i: int| 0 <= i < old(o).move_stack@.len() ==> #[trigger] final(o).move_stack@[i] == old(o).move_stack@[i],
        final(o).path_find == old(o).path_find,
        final(o).killable == old(o).killable,
        final(o).branch_factor == old(o).branch_factor,
        final(o).verbose == old(o).verbose,
        final(o).max_depth == old(o).max_depth,
{
    let c = p.clone();
    o.move_stack.push(c);
}

/// Takes the last path off the line being worked on.
pub fn unstack_path(o: &mut SearchOpts)
    ensures
        final(o).move_stack@ == old(o).move_stack@.drop_last() || (old(o).move_stack@.len() == 0
            && final(o).move_stack@ == old(o).move_stack@),
        final(o).path_find == old(o).path_find,
        final(o).killable == old(o).killable,
        final(o).branch_factor == old(o).branch_factor,
        final(o).verbose == old(o).verbose,
        final(o).max_depth == old(o).max_depth,
{
    let _ = o.move_stack.pop();
}

/// The usual settings: `branch_factor()` targets per node, quietly, stopped
/// by a signal, up to depth 10, with the brushfire, and no line yet.
pub fn default_opts() -> (o: SearchOpts)
    ensures
        o.branch_factor == 5,
        !o.verbose,
        o.killable,
        o.max_depth == 10,
        o.path_find == PathFind::Brushfire,
        o.move_stack@.len() == 0,
{
    SearchOpts {
        branch_factor: heuristics::branch_factor(),
        verbose: false,
        killable: true,
        max_depth: 10,
        path_find: PathFind::Brushfire,
        move_stack: Vec::new(),
    }
}

/// The usual settings, reporting as asked.
pub fn default_opts_verbose(verbose: bool) -> (o: SearchOpts)
    ensures
        o.branch_factor == 5,
        o.verbose == verbose,
        o.killable,
        o.max_depth == 10,
        o.path_find == PathFind::Brushfire,
        o.move_stack@.len() == 0,
{
    SearchOpts { verbose, ..default_opts() }
}

/// The usual settings with `bf` targets per node.
pub fn default_opts_bfac(bf: usize) -> (o: SearchOpts)
    ensures
        o.branch_factor == bf,
        !o.verbose,
        o.killable,
        o.max_depth == 10,
        o.path_find == PathFind::Brushfire,
        o.move_stack@.len() == 0,
{
    SearchOpts { branch_factor: bf, ..default_opts() }
}

/// The paths of a greedy game from the horizon, with the evaluation of the
/// state each starts from; last first.
pub type GreedyResult = Vec<(Path, i64)>;

/// No greedy game yet.
pub fn base_greedy_result() -> (r: GreedyResult)
    ensures
        r@.len() == 0,
{
    Vec::new()
}

/// The result of stopping at `s`: no paths.
pub fn done_searching(s: State) -> (res: SearchResult)
    requires
        sound(s@),
        room(s@, 0),
    ensures
        search_ok(s@, res),
        res.0@.len() == 0,
        res.1@ == s@,
{
    let score = s.score;
    (Vec::new(), s, score)
}

/// The score of a search result.
pub fn score_result(r: &SearchResult) -> (s: i64)
    ensures
        s == r.2,
{
    r.2
}

/// The line of `rest` (from the state `path` leads to), with `path` before
/// it.
proof fn lemma_line_prefix(s: StateView, ns: StateView, path: Path, rest: Seq<Path>, end: StateView)
    requires
        spec_apply(s, path@, false) == StepView::Stepped(ns),
        spec_apply(ns, line_moves(rest), false) == StepView::Stepped(end),
    ensures
        spec_apply(s, line_moves(rest.push(path)), false) == StepView::Stepped(end),
        line_moves(rest.push(path)) == path@ + line_moves(rest),
{
    assert(rest.push(path).drop_last() =~= rest);
    assert(line_moves(rest.push(path)) == path@ + line_moves(rest));
    lemma_apply_concat(s, path@, line_moves(rest), false);
}

/// No signal stops the engine: it is not killable, or the signal is quiet.
pub open spec fn unstopped<F: Fn() -> bool>(o: &SearchOpts, signal: &F) -> bool {
    !o.killable || crate::game_tree::bblum::quiet(signal)
}

/// Recorded paths with evaluations, as moves.
pub open spec fn records_view(w: Seq<(Path, i64)>) -> Seq<(Seq<Move>, i64)> {
    w.map_values(|e: (Path, i64)| (e.0@, e.1))
}

/// What the greedy game from `s` records, last first: each path walked with
/// the evaluation of the state it starts from, and first of all an empty
/// path with the evaluation of the state where it ends.
pub open spec fn cm_records(s: StateView) -> Seq<(Seq<Move>, i64)>
    decreases s.score + 0x1_0000_0000_0000,
{
    match brushfire::brushfire_first(s) {
        Some(p) => match spec_apply(s, p, false) {
            StepView::Stepped(s2) => if 0 <= s2.score + 0x1_0000_0000_0000 < s.score + 0x1_0000_0000_0000 {
                cm_records(s2).push((p, eval_of(s)))
            } else {
                Seq::empty()
            },
            _ => Seq::empty(),
        },
        None => seq![(Seq::empty(), eval_of(s))],
    }
}

/// Repeatedly finds lambdas with the brushfire and walks to them, until
/// none is found or (when killable) the signal says stop. Records in
/// `work_item` each path taken, with the evaluation of the state it starts
/// from, and last the evaluation of the final state.
pub fn greedy_finish<F: Fn() -> bool>(s: State, work_item: &mut GreedyResult, o: &SearchOpts, signal: &F) -> (res: SearchResult)
    requires
        sound(s@),
        room(s@, 0),
        signal.requires(()),
    ensures
        search_ok(s@, res),
        final(work_item)@.len() >= old(work_item)@.len(),
        line_moves(res.0@).is_prefix_of(brushfire::brushfire_run(s@).0),
        o.killable && crate::game_tree::bblum::loud(signal) ==> res.0@.len() == 0 && res.1@ == s@,
        unstopped(o, signal) ==> line_moves(res.0@) == brushfire::brushfire_run(s@).0 && res.1@
            == brushfire::brushfire_run(s@).1 && records_view(final(work_item)@) == records_view(old(work_item)@)
            + cm_records(s@),
    decreases s.score + 0x1_0000_0000_0000,
{
    if signal() && o.killable {
        return done_searching(s);
    }
    let mut thunk = brushfire::get_paths(&s);
    let result = thunk.next();
    match result {
        Some((newstate, path)) => {
            proof {
                lemma_apply_score(s@, path@, false);
            }
            let ghost w0 = work_item@;
            let (mut finishing_moves, endstate, score) = greedy_finish(newstate, work_item, o, signal);
            let e = evaluate(&s);
            let ghost w1 = work_item@;
            let pc = path.clone();
            work_item.push((pc, e));
            let ghost rest = finishing_moves@;
            let ghost pg = path;
            finishing_moves.push(path);
            proof {
                lemma_line_prefix(s@, newstate@, pg, rest, endstate@);
                let tail = brushfire::brushfire_run(newstate@).0;
                assert(brushfire::brushfire_first(s@) == Some(pg@));
                assert(brushfire::brushfire_run(s@).0 == pg@ + tail);
                assert((pg@ + tail).subrange(0, (pg@ + line_moves(rest)).len() as int) =~= pg@ + line_moves(rest));
                assert(records_view(work_item@) =~= records_view(w1).push((pg@, e)));
                if unstopped(o, signal) {
                    assert(brushfire::brushfire_first(s@) == Some(pg@));
                    assert(cm_records(s@) == cm_records(newstate@).push((pg@, e)));
                    assert(brushfire::brushfire_run(s@) == (pg@ + brushfire::brushfire_run(newstate@).0, brushfire::brushfire_run(
                        newstate@,
                    ).1));
                    assert(records_view(w1).push((pg@, e)) =~= records_view(w0) + cm_records(newstate@).push((pg@, e)));
                }
            }
            (finishing_moves, endstate, score)
        },
        None => {
            let e = evaluate(&s);
            let ghost w0 = work_item@;
            work_item.push((Vec::new(), e));
            proof {
                assert(records_view(work_item@) =~= records_view(w0) + seq![(Seq::<Move>::empty(), e)]);
            }
            done_searching(s)
        },
    }
}

/// The whole greedy game from `s`.
pub fn greedy_all<F: Fn() -> bool>(s: State, o: &SearchOpts, signal: &F) -> (res: SearchResult)
    requires
        sound(s@),
        room(s@, 0),
        signal.requires(()),
    ensures
        search_ok(s@, res),
        unstopped(o, signal) ==> line_moves(res.0@) == brushfire::brushfire_run(s@).0 && res.1@
            == brushfire::brushfire_run(s@).1,
{
    let mut w = base_greedy_result();
    greedy_finish(s, &mut w, o, signal)
}

/// Reads a board and sets the engine's one-level search, `bf` targets (with
/// the usual settings otherwise), against its greedy game: answers whether
/// the search completes and scores higher (at equal scores the two must also
/// end on the same board, which cannot make the answer yes). A search that
/// finds a target cannot queue its work and fails the comparison, as does a
/// board that is not a sound mine or whose lambdas overflow the counters.
/// The search is one level deep whatever
/// depth is asked for.
pub fn test_search_vs_greedy<F: Fn() -> bool>(mapstr: &str, _depth: usize, bf: usize, signal: &F) -> (ok: bool)
    requires
        valid_board_text(mapstr@),
        signal.requires(()),
    ensures
        crate::game_tree::bblum::quiet(signal) ==> ok == (sound(board_view(mapstr@)) && room(board_view(mapstr@), 0) && (bf == 0
            || finder_walks(PathFind::Brushfire, board_view(mapstr@)).len() == 0) && board_view(mapstr@).score
            > brushfire::brushfire_run(board_view(mapstr@)).1.score),
{
    let s = read_board(mapstr);
    if !s.is_sound() || !s.has_room(0) {
        return false;
    }
    let (_, endstate, score) = greedy_all(s.copy(), &default_opts(), signal);
    let mut o = default_opts_bfac(bf);
    let (_, endstate2, score2) = match search_horizon(s, &mut o, signal) {
        Ok(r) => r,
        Err(_) => {
            return false;
        },
    };
    if score2 == score && !compare_states(&endstate, &endstate2) {
        return false;
    }
    score2 > score
}

/// A unit of work: the paths up to the old horizon, those of the greedy
/// game beyond it, and the estimated score.
pub struct Work {
    pub prefix: Vec<Path>,
    pub suffix: Vec<Path>,
    pub eval: i64,
}

/// The work queue.
pub type Worklist = DList<Work>;

/// The queue with its one first item: search from the start.
pub fn init_worklist() -> (w: Worklist)
    ensures
        w.wf(),
        w@.len() == 1,
        w@[0].prefix@.len() == 0,
        w@[0].suffix@.len() == 0,
        w@[0].eval == i64::MIN,
{
    from_elt(Work { prefix: Vec::new(), suffix: Vec::new(), eval: i64::MIN })
}

/// Why the engine could not finish: queueing further work is not written.
pub enum Unfinished {
    /// The search found targets, and their work could not be queued.
    AddWork,
    /// A line to replay did not let the game go on.
    KnownPath,
    /// The line being worked on was not empty when work began.
    MoveStack,
}

/// The greedy games beyond a horizon, with the paths each took.
pub type WorkItemList = Vec<(GreedyResult, Vec<Path>)>;

/// Queues the work the horizon search left: takes the items apart, each
/// checked to hold as many evaluations as paths; queueing itself is not
/// written, so this always ends in an error.
pub fn add_work(x: WorkItemList, greed_depth_total: usize, o: &SearchOpts) -> (r: Result<(), Unfinished>)
    ensures
        r matches Err(Unfinished::AddWork),
{
    let mut x = x;
    while x.len() > 0
        invariant
            true,
        decreases x@.len(),
    {
        let (eval_scores, moves) = x.pop().unwrap();
        if eval_scores.len() != moves.len() {
            return Err(Unfinished::AddWork);
        }
    }
    Err(Unfinished::AddWork)
}

/// A search one level deep from `s`: tries `branch_factor` targets, each
/// finished greedily, and keeps the best line. When any target is found the
/// work it leaves must be queued, which fails; so the search completes only
/// when it is stopped first or finds no target.
pub fn search_horizon<F: Fn() -> bool>(s: State, o: &mut SearchOpts, signal: &F) -> (res: Result<SearchResult, Unfinished>)
    requires
        sound(s@),
        room(s@, 0),
        signal.requires(()),
    ensures
        res matches Ok(r) ==> search_ok(s@, r) && r.0@.len() == 0 && r.1@ == s@,
        res matches Err(e) ==> e is AddWork,
        unstopped(old(o), signal) ==> (res is Ok <==> (old(o).branch_factor == 0
            || finder_walks(old(o).path_find, s@).len() == 0)),
        final(o).move_stack@ == old(o).move_stack@,
        final(o).path_find == old(o).path_find,
        final(o).killable == old(o).killable,
        final(o).branch_factor == old(o).branch_factor,
        final(o).verbose == old(o).verbose,
        final(o).max_depth == old(o).max_depth,
{
    let mut best: Option<SearchResult> = None;
    let mut best_score: Option<i64> = None;
    let mut pathlist = o.path_find.get_paths(&s);
    let mut work_items: WorkItemList = Vec::new();
    let mut greed_depth_total: usize = 0;
    if signal() && o.killable {
        return Ok(done_searching(s));
    }
    let ghost plain = unstopped(o, signal);
    let mut k: usize = 0;
    while k < o.branch_factor
        invariant_except_break
            plain && k == 0 ==> gen_walks(pathlist) == finder_walks(o.path_find, s@),
            plain && k == 0 ==> best is None,
        invariant
            sound(s@),
            room(s@, 0),
            signal.requires(()),
            pathlist.ok(),
            pathlist.start() == s@,
            best is Some <==> best_score is Some,
            best matches Some(b) ==> search_ok(s@, b) && best_score == Some(b.2),
            o.move_stack@ == old(o).move_stack@,
            o.path_find == old(o).path_find,
            o.killable == old(o).killable,
            o.branch_factor == old(o).branch_factor,
            o.verbose == old(o).verbose,
            o.max_depth == old(o).max_depth,
            plain == unstopped(old(o), signal),
            plain && k > 0 ==> best is Some && finder_walks(o.path_find, s@).len() > 0,
            k <= o.branch_factor,
            best is Some ==> k > 0,
        ensures
            plain && o.branch_factor > 0 ==> (best is Some <==> finder_walks(o.path_find, s@).len() > 0),
        decreases o.branch_factor - k,
    {
        let target_opt = pathlist.next();
        match target_opt {
            Some((newstate, path)) => {
                let mut work_item = base_greedy_result();
                stack_path(&path, o);
                let (mut finishing_moves, endstate, this_score) = greedy_finish(newstate, &mut work_item, o, signal);
                unstack_path(o);
                greed_depth_total = greed_depth_total.wrapping_add(finishing_moves.len());
                let mut copy_moves: Vec<Path> = Vec::new();
                let mut j: usize = 0;
                while j < finishing_moves.len()
                    invariant
                        j <= finishing_moves@.len(),
                    decreases finishing_moves@.len() - j,
                {
                    copy_moves.push(finishing_moves[j].clone());
                    j += 1;
                }
                work_items.push((work_item, copy_moves));
                if best_score.is_none() || this_score > best_score.unwrap() {
                    let ghost rest = finishing_moves@;
                    let ghost pg = path;
                    finishing_moves.push(path);
                    proof {
                        lemma_line_prefix(s@, newstate@, pg, rest, endstate@);
                    }
                    best = Some((finishing_moves, endstate, this_score));
                    best_score = Some(this_score);
                }
            },
            None => {
                break;
            },
        }
        k += 1;
    }
    match best {
        Some(_) => {
            let r = add_work(work_items, greed_depth_total, o);
            match r {
                Ok(()) => {
                    proof {
                        assert(false);
                    }
                    Err(Unfinished::AddWork)
                },
                Err(e) => Err(e),
            }
        },
        None => Ok(done_searching(s)),
    }
}

/// Plays the known line `p` from `s`: it must let the game go on, with room
/// in the counters for its moves; otherwise the work cannot be replayed.
fn apply_known_path(s: State, p: &Path) -> (res: Result<State, Unfinished>)
    requires
        sound(s@),
    ensures
        res matches Ok(s2) ==> spec_apply(s@, p@, false) == StepView::Stepped(s2@) && sound(s2@) && room(s2@, 0),
        res is Ok <==> room(s@, p@.len() as int) && spec_apply(s@, p@, false) is Stepped,
        res matches Err(e) ==> e is KnownPath,
{
    let r = brushfire::state_apply(&s, p);
    match r {
        Some(s2) => Ok(s2),
        None => Err(Unfinished::KnownPath),
    }
}

/// Replays a unit of work's paths from `s_` (the line must start empty),
/// then searches from the horizon they reach; the line is reset after.
pub fn process_work<F: Fn() -> bool>(s_: State, w: &Work, o: &mut SearchOpts, signal: &F) -> (res: Result<SearchResult, Unfinished>)
    requires
        sound(s_@),
        room(s_@, 0),
        signal.requires(()),
    ensures
        final(o).move_stack@.len() == 0 || res is Err,
        res matches Ok(r) ==> (w.prefix@.len() == 0 && w.suffix@.len() == 0 ==> search_ok(s_@, r)),
        old(o).move_stack@.len() != 0 ==> res matches Err(Unfinished::MoveStack),
        old(o).move_stack@.len() == 0 && w.prefix@.len() == 0 && w.suffix@.len() == 0 ==> {
            &&& res matches Ok(r) ==> r.0@.len() == 0 && r.1@ == s_@
            &&& res matches Err(e) ==> e is AddWork
            &&& unstopped(old(o), signal) ==> (res is Ok <==> (old(o).branch_factor
                == 0 || finder_walks(old(o).path_find, s_@).len() == 0))
        },
        final(o).path_find == old(o).path_find,
        final(o).killable == old(o).killable,
        final(o).branch_factor == old(o).branch_factor,
        final(o).verbose == old(o).verbose,
        final(o).max_depth == old(o).max_depth,
{
    if o.move_stack.len() != 0 {
        return Err(Unfinished::MoveStack);
    }
    let mut s = s_;
    let mut i: usize = 0;
    while i < w.prefix.len()
        invariant
            sound(s@),
            room(s@, 0),
            i <= w.prefix@.len(),
            i == 0 ==> s@ == s_@,
            i == 0 ==> o.move_stack@ == old(o).move_stack@,
            old(o).move_stack@.len() == 0,
            o.path_find == old(o).path_find,
            o.killable == old(o).killable,
            o.branch_factor == old(o).branch_factor,
            o.verbose == old(o).verbose,
            o.max_depth == old(o).max_depth,
        decreases w.prefix@.len() - i,
    {
        let path = &w.prefix[i];
        s = apply_known_path(s, path)?;
        stack_path(path, o);
        i += 1;
    }
    let mut i: usize = 0;
    while i < w.suffix.len()
        invariant
            sound(s@),
            room(s@, 0),
            i <= w.suffix@.len(),
            w.prefix@.len() == 0 && i == 0 ==> s@ == s_@,
            w.prefix@.len() == 0 && i == 0 ==> o.move_stack@ == old(o).move_stack@,
            old(o).move_stack@.len() == 0,
            o.path_find == old(o).path_find,
            o.killable == old(o).killable,
            o.branch_factor == old(o).branch_factor,
            o.verbose == old(o).verbose,
            o.max_depth == old(o).max_depth,
        decreases w.suffix@.len() - i,
    {
        let path = &w.suffix[i];
        s = apply_known_path(s, path)?;
        stack_path(path, o);
        i += 1;
    }
    let result = search_horizon(s, o, signal);
    o.move_stack = Vec::new();
    result
}

/// The line the work queue settles on from `s` when its search finds no
/// target: the greedy game, unless stopping at once scores higher.
pub open spec fn cm_best(s: StateView) -> (Seq<Move>, StateView) {
    let g = brushfire::brushfire_run(s);
    if s.score > g.1.score {
        (Seq::empty(), s)
    } else {
        g
    }
}

/// Runs the work queue: starts from the greedy game (which no signal cuts
/// short), processes work until the queue is empty or (when killable) the
/// signal says stop, and keeps the best result.
pub fn run_workqueue<F: Fn() -> bool>(s: State, o: &mut SearchOpts, signal: &F) -> (res: Result<SearchResult, Unfinished>)
    requires
        sound(s@),
        room(s@, 0),
        signal.requires(()),
    ensures
        res matches Ok(r) ==> search_ok(s@, r),
        res matches Err(e) ==> e is MoveStack || e is AddWork,
        unstopped(old(o), signal) ==> (res is Ok <==> (old(o).move_stack@.len() == 0
            && (old(o).branch_factor == 0 || finder_walks(old(o).path_find, s@).len() == 0))),
        unstopped(old(o), signal) ==> (res matches Ok(r) ==> line_moves(r.0@)
            == cm_best(s@).0 && r.1@ == cm_best(s@).1),
{
    let ghost plain = unstopped(o, signal);
    let mut worklist = init_worklist();
    let unkillable = SearchOpts {
        branch_factor: o.branch_factor,
        verbose: o.verbose,
        killable: false,
        max_depth: o.max_depth,
        path_find: o.path_find,
        move_stack: Vec::new(),
    };
    let mut best_result = greedy_all(s.copy(), &unkillable, signal);
    while !worklist.is_empty() && !(signal() && o.killable)
        invariant
            sound(s@),
            room(s@, 0),
            signal.requires(()),
            worklist.wf(),
            search_ok(s@, best_result),
            forall|k: int| 0 <= k < worklist@.len() ==> (#[trigger] worklist@[k]).prefix@.len() == 0
                && worklist@[k].suffix@.len() == 0,
            worklist@.len() <= 1,
            plain == unstopped(old(o), signal),
            o.path_find == old(o).path_find,
            o.killable == old(o).killable,
            o.branch_factor == old(o).branch_factor,
            worklist@.len() == 1 ==> o.move_stack@ == old(o).move_stack@,
            plain && worklist@.len() == 1 ==> line_moves(best_result.0@) == brushfire::brushfire_run(s@).0
                && best_result.1@ == brushfire::brushfire_run(s@).1,
            plain && worklist@.len() == 0 ==> old(o).move_stack@.len() == 0 && (old(o).branch_factor == 0
                || finder_walks(old(o).path_find, s@).len() == 0) && line_moves(best_result.0@) == cm_best(s@).0
                && best_result.1@ == cm_best(s@).1,
        decreases worklist@.len(),
    {
        let ghost first = worklist@[0];
        let ghost wl0 = worklist@;
        let work = worklist.pop_n().unwrap();
        proof {
            assert(worklist.datum(work.idx as int) == first);
            assert forall|k: int| 0 <= k < worklist@.len() implies (#[trigger] worklist@[k]).prefix@.len() == 0
                && worklist@[k].suffix@.len() == 0 by {
                assert(worklist@[k] == wl0[k + 1]);
            }
        }
        let sc = s.copy();
        let result = process_work(sc, worklist.data(work), o, signal)?;
        proof {
            if plain {
                assert(line_moves(result.0@) == Seq::<Move>::empty()) by {
                    assert(result.0@.len() == 0);
                }
            }
        }
        if score_result(&result) > score_result(&best_result) {
            best_result = result;
        }
    }
    Ok(best_result)
}

/// The engine's plan: the moves of the best line, first first, and the
/// abort.
pub fn get_path<F: Fn() -> bool>(o: &mut SearchOpts, s: State, signal: &F) -> (res: Result<Vec<Move>, Unfinished>)
    requires
        sound(s@),
        room(s@, 0),
        signal.requires(()),
    ensures
        res matches Ok(moves) ==> moves@.len() >= 1 && moves@.last() == Move::A && exists|end: StateView|
            spec_apply(s@, moves@.drop_last(), false) == StepView::Stepped(end),
        res matches Err(e) ==> e is MoveStack || e is AddWork,
        unstopped(old(o), signal) ==> (res is Ok <==> (old(o).move_stack@.len() == 0
            && (old(o).branch_factor == 0 || finder_walks(old(o).path_find, s@).len() == 0))),
        unstopped(old(o), signal) ==> (res matches Ok(moves) ==> moves@
            == cm_best(s@).0.push(Move::A)),
{
    let (paths, _endstate, _score) = run_workqueue(s, o, signal)?;
    let mut moves: Vec<Move> = Vec::new();
    let mut i: usize = paths.len();
    let ghost all = paths@;
    proof {
        assert(all.take(all.len() as int) =~= all);
    }
    while i > 0
        invariant
            i <= all.len(),
            all == paths@,
            moves@ + line_moves(all.take(i as int)) == line_moves(all),
        decreases i,
    {
        let ghost pre = moves@;
        let mut p = paths[i - 1].clone();
        proof {
            let t = all.take(i as int);
            assert(t.drop_last() =~= all.take(i - 1));
            assert(t.last() == all[i - 1]);
        }
        moves.append(&mut p);
        proof {
            assert(moves@ == pre + all[i - 1]@);
        }
        i -= 1;
    }
    proof {
        assert(all.take(0) =~= Seq::<Path>::empty());
        assert(moves@ + Seq::<Move>::empty() =~= moves@);
    }
    let ghost fwd = moves@;
    moves.push(Move::A);
    proof {
        assert(moves@.drop_last() =~= fwd);
        assert(moves@ =~= line_moves(all).push(Move::A));
    }
    Ok(moves)
}

} // verus!
