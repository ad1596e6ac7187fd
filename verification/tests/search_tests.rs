use lifter::astar;
use lifter::brushfire;
use lifter::dlist::{create, from_vec};
use lifter::driver::{compare_states, find_known, get_known_maps, human_start, moves_text, run_moveseq, HumanAction, HumanEvent};
use lifter::evaluate::{add_lambda_sorted, evaluate, score_lambdas};
use lifter::fuzzer::{rand_board_text, rand_flooding, rand_inner_square, rand_map_char, rand_water, rand_waterproof};
use lifter::game_tree::{bblum, cargomax, simple, tobruos};
use lifter::heuristics::{branch_factor, chunking_avg_path_multiplier, eval_severe_dropoff, path_aggr_weight};
use lifter::path::{apply, genpath_restart, genpaths, Target};
use lifter::path_find::{BaseFind, PathFind};
use lifter::pathlist::{mk_bblums_pathlist, Pathlist};
use lifter::pattern::{ch_to_patsq, flip_patsq, match_offset, match_show, mtc, patterns_text_valid, read_patterns, PatSq};
use lifter::play::{get_next_lambda_oneshot, greedy_finish, initial_path_state, play_game, search, default_opts, default_opts_bfac};
use lifter::precise::path_apply;
use lifter::state::{read_board, Move, Square, State, StepResult};
use lifter::targets::{GotoThing, ViaThing};

const CONTEST1: &str = "######\n#. *R#\n#  \\.#\n#\\ * #\nL  .\\#\n######\n";
const ONE_LAMBDA: &str = "#####\n#R\\ #\n#####\n";
const NO_LAMBDA: &str = "#####\n#R  #\n#####\n";

fn never() -> bool {
    false
}

#[test]
fn test_pull_my_thunk() {
    let state = read_board(CONTEST1);
    let mut thunk = astar::get_paths(&state);
    while thunk.next().is_some() {}
}

#[test]
fn the_astar_generator_runs_dry() {
    let state = read_board(CONTEST1);
    let mut thunk = astar::get_paths(&state);
    let mut found = 0;
    while thunk.next().is_some() {
        found += 1;
    }
    assert!(found >= 1);
    assert!(found <= state.lambdasleft as usize);
    assert!(thunk.next().is_none());
    assert!(thunk.next().is_none());
}

#[test]
fn brushfire_finds_the_nearest_lambda() {
    let st = read_board(ONE_LAMBDA);
    let dests = vec![Some((3usize, 2usize))];
    let (found, fire) = genpaths(&st.grid, st.robotpos, &dests);
    let (p, t) = found.expect("the lambda is next to the robot");
    assert_eq!(p, vec![Move::R]);
    assert_eq!(t, (3, 2));
    assert!(fire.visited[1][2].0);
    assert!(!fire.visited[1][3].0);
}

#[test]
fn brushfire_takes_the_path_its_first_round_opened() {
    let st = read_board("#####\n#   #\n#   #\n#R  #\n#####\n");
    let dests = vec![Some((3usize, 3usize))];
    let (found, _) = genpaths(&st.grid, st.robotpos, &dests);
    let (p, t) = found.expect("the square is two moves away");
    assert_eq!(p, vec![Move::R, Move::U]);
    assert_eq!(t, (3, 3));
    let dests = vec![Some((2usize, 4usize)), Some((4usize, 2usize))];
    let (found, _) = genpaths(&st.grid, st.robotpos, &dests);
    let (p, t) = found.expect("both squares are two moves away");
    assert_eq!(p, vec![Move::U, Move::U]);
    assert_eq!(t, (2, 4));
}

#[test]
fn brushfire_answers_nothing_when_walled_in() {
    let st = read_board("#####\n#R#\\#\n#####\n");
    let dests = vec![Some((4usize, 2usize))];
    let (found, _) = genpaths(&st.grid, st.robotpos, &dests);
    assert!(found.is_none());
}

#[test]
fn applying_a_path_walks_it() {
    let st = read_board(ONE_LAMBDA);
    match apply(&vec![Move::R, Move::R], &st, true) {
        StepResult::Stepped(n) => {
            assert_eq!(n.robotpos, (4, 2));
            assert_eq!(n.lambdas, 1);
            assert_eq!(n.score, -2);
        }
        _ => panic!("the path is clear"),
    }
    match apply(&vec![Move::R, Move::A], &st, true) {
        StepResult::Endgame(p) => assert_eq!(p, 23),
        _ => panic!("the abort ends the game"),
    }
}

#[test]
fn the_driver_walks_to_the_next_lambda() {
    let st = read_board(ONE_LAMBDA);
    assert!(st.is_sound());
    let (n, p) = get_next_lambda_oneshot(&st).expect("a lambda is reachable");
    assert_eq!(p, vec![Move::R]);
    assert_eq!(n.robotpos, (3, 2));
    assert_eq!(n.lambdas, 1);
    assert!(get_next_lambda_oneshot(&n).is_none());
}

#[test]
fn a_greedy_game_collects_and_aborts() {
    let st = read_board(ONE_LAMBDA);
    let (moves, end) = play_game(st.copy(), false);
    assert_eq!(moves, vec![Move::R, Move::A]);
    assert_eq!(end.robotpos, (3, 2));
    assert_eq!(end.score, -1);
    let (rev, end2, score) = greedy_finish(st.copy(), &default_opts());
    assert_eq!(rev, vec![Move::A, Move::R]);
    assert_eq!(score, -1);
    assert_eq!(end2.lambdas, 1);
}

#[test]
fn a_search_of_depth_zero_is_the_greedy_game() {
    let st = read_board(ONE_LAMBDA);
    let (m1, _, s1) = greedy_finish(st.copy(), &default_opts());
    let (m2, _, s2) = search(st.copy(), 0, &default_opts_bfac(0));
    let (m3, _, s3) = search(st.copy(), 3, &default_opts_bfac(2));
    assert_eq!(m1, m2);
    assert_eq!(s1, s2);
    assert_eq!(m1, m3);
    assert_eq!(s1, s3);
}

#[test]
fn path_lists_hand_out_the_driver_paths() {
    let st = read_board(ONE_LAMBDA);
    let mut l = mk_bblums_pathlist();
    let (n, p) = l.next_target_path(&st).expect("a lambda is reachable");
    assert_eq!(p, vec![Move::R]);
    assert_eq!(n.lambdas, 1);
    let _ = initial_path_state();
}

#[test]
fn the_brushfire_generator_hands_out_each_lambda_once() {
    let st = read_board("######\n#\\R\\ #\n######\n");
    let mut g = brushfire::get_paths(&st);
    let (_, p1) = g.next().expect("first lambda");
    assert_eq!(p1, vec![Move::L]);
    let (_, p2) = g.next().expect("second lambda");
    assert_eq!(p2, vec![Move::R]);
    assert!(g.next().is_none());
}

#[test]
fn astar_starts_its_paths_with_a_wait() {
    let st = read_board(ONE_LAMBDA);
    let (n, p) = astar::navigar(&st, (3, 2)).expect("the lambda is next to the robot");
    assert_eq!(p, vec![Move::W, Move::R]);
    assert_eq!(n.robotpos, (3, 2));
    assert!(astar::navigar(&read_board("#####\n#R#\\#\n#####\n"), (4, 2)).is_none());
}

#[test]
fn astar_takes_the_way_its_queue_puts_first() {
    let st = read_board("#####\n#   #\n#  \\#\n#R  #\n#####\n");
    let (n, p) = astar::navigar(&st, (4, 3)).expect("the lambda is three moves away");
    assert_eq!(p, vec![Move::W, Move::U, Move::R, Move::R]);
    assert_eq!(n.robotpos, (4, 3));
}

#[test]
fn priority_queue_inserts_after_the_first_not_better() {
    let mut pq = create::<(usize, char)>();
    astar::pqins(&mut pq, 'a', 5);
    astar::pqins(&mut pq, 'b', 3);
    astar::pqins(&mut pq, 'c', 4);
    astar::pqins(&mut pq, 'd', 9);
    assert_eq!(pq.pop(), Some((5, 'a')));
    assert_eq!(pq.pop(), Some((4, 'c')));
    assert_eq!(pq.pop(), Some((3, 'b')));
    assert_eq!(pq.pop(), Some((9, 'd')));
    assert_eq!(pq.pop(), None);
}

#[test]
fn lambdas_are_listed_by_ascending_score() {
    let mut ls = create::<((usize, usize), i64)>();
    add_lambda_sorted(&mut ls, (1, 1), 5);
    add_lambda_sorted(&mut ls, (2, 2), 3);
    add_lambda_sorted(&mut ls, (3, 3), 4);
    add_lambda_sorted(&mut ls, (4, 4), 9);
    add_lambda_sorted(&mut ls, (5, 5), 4);
    assert_eq!(ls.pop(), Some(((2, 2), 3)));
    assert_eq!(ls.pop(), Some(((5, 5), 4)));
    assert_eq!(ls.pop(), Some(((3, 3), 4)));
    assert_eq!(ls.pop(), Some(((1, 1), 5)));
    assert_eq!(ls.pop(), Some(((4, 4), 9)));
    assert_eq!(ls.pop(), None);
}

#[test]
fn a_middle_score_goes_between() {
    let mut ls = create::<((usize, usize), i64)>();
    add_lambda_sorted(&mut ls, (1, 1), 1);
    add_lambda_sorted(&mut ls, (2, 2), 5);
    add_lambda_sorted(&mut ls, (3, 3), 3);
    assert_eq!(ls.pop(), Some(((1, 1), 1)));
    assert_eq!(ls.pop(), Some(((3, 3), 3)));
    assert_eq!(ls.pop(), Some(((2, 2), 5)));
}

#[test]
fn scoring_the_lambdas_of_a_grid() {
    let st = read_board("######\n#\\R\\ #\n######\n");
    let mut ls = score_lambdas(&st.grid, |c: (usize, usize)| c.0 as i64);
    assert_eq!(ls.len(), 2);
    assert_eq!(ls.pop(), Some(((2, 2), 2)));
    assert_eq!(ls.pop(), Some(((4, 2), 4)));
}

#[test]
fn evaluation_adds_for_each_reachable_lambda() {
    assert_eq!(evaluate(&read_board(ONE_LAMBDA)), 12);
    assert_eq!(evaluate(&read_board(NO_LAMBDA)), 0);
    assert_eq!(evaluate(&read_board("#####\n#R#\\#\n#####\n")), 0);
}

#[test]
fn evaluation_counts_every_lambda_the_fire_reaches() {
    // Both lambdas are one move away: the fire reaches them in the same
    // round and burns out in the next, and still hands out the second.
    assert_eq!(evaluate(&read_board("#####\n#\\R\\#\n#####\n")), 24);
    // In an open room the fire goes on past the first, and finds both.
    assert_eq!(evaluate(&read_board("#####\n#   #\n#\\R\\#\n#####\n")), 24);
}

#[test]
fn a_resumed_fire_hands_out_every_target_on_its_last_layer() {
    let st = read_board("#####\n#\\R\\#\n#####\n");
    let mut dests = vec![Some((2usize, 2usize)), Some((4usize, 2usize))];
    let (found, fire) = genpaths(&st.grid, st.robotpos, &dests);
    let (p, t) = found.expect("both lambdas are one move away");
    assert_eq!((p, t), (vec![Move::L], (2, 2)));
    dests[0] = None;
    let (found, fire) = genpath_restart(&st.grid, st.robotpos, &dests, fire);
    let (p, t) = found.expect("the second lambda was reached too");
    assert_eq!((p, t), (vec![Move::R], (4, 2)));
    dests[1] = None;
    let (found, _) = genpath_restart(&st.grid, st.robotpos, &dests, fire);
    assert!(found.is_none());
}

#[test]
fn the_brushfire_generator_runs_through_a_burnt_out_layer() {
    let st = read_board("#####\n#\\R\\#\n#####\n");
    let mut g = brushfire::get_paths(&st);
    let (_, p1) = g.next().expect("a first lambda");
    let (_, p2) = g.next().expect("a second lambda");
    assert_eq!(p1, vec![Move::L]);
    assert_eq!(p2, vec![Move::R]);
    assert!(g.next().is_none());
    assert!(g.next().is_none());
}

#[test]
fn dlist_keeps_order() {
    let mut l = from_vec(&[1, 2, 3]);
    l.push(4);
    l.push_head(0);
    assert_eq!(l.len(), 5);
    assert_eq!(l.pop(), Some(0));
    assert_eq!(l.pop_tail(), Some(4));
    assert_eq!(l.peek(), Some(1));
    assert_eq!(l.peek_tail(), Some(3));
    assert!(l.assert_consistent());
}

#[test]
fn dlist_handles_survive_insertions() {
    let mut l = create::<i32>();
    let one = l.push_n(1);
    l.push(3);
    l.push_head(0);
    l.insert_after(2, one);
    l.insert_before(-1, one);
    assert_eq!(*l.data(one), 1);
    assert_eq!(*l.data(l.next_node(one)), 2);
    assert_eq!(*l.data(l.prev_node(one)), -1);
    let mut all = Vec::new();
    while let Some(x) = l.pop() {
        all.push(x);
    }
    assert_eq!(all, vec![0, -1, 1, 2, 3]);
}

#[test]
fn heuristic_knobs() {
    assert_eq!(path_aggr_weight(4), 6);
    assert_eq!(branch_factor(), 5);
    assert_eq!(chunking_avg_path_multiplier(9), 6);
    assert!(eval_severe_dropoff(100, 50));
    assert!(!eval_severe_dropoff(100, 60));
}

const ONE_PATTERN: &str = "R_ ; the robot, then empty space\n\n!R 12\n";

#[test]
fn patterns_are_read_with_their_mirror_images() {
    assert!(patterns_text_valid(ONE_PATTERN));
    let pats = read_patterns(ONE_PATTERN);
    assert_eq!(pats.len(), 2);
    assert_eq!(pats[0].p, vec![vec![PatSq::Eat, PatSq::Mt]]);
    assert_eq!((pats[0].off_r, pats[0].off_c), (1, 0));
    assert_eq!((pats[0].off_r_dest, pats[0].off_c_dest), (1, 1));
    assert_eq!(pats[0].cost, 2);
    assert_eq!(pats[0].cmd, vec![Move::R]);
    assert_eq!(pats[1].p, vec![vec![PatSq::Mt, PatSq::Eat]]);
    assert_eq!((pats[1].off_r, pats[1].off_c), (1, 1));
    assert_eq!((pats[1].off_r_dest, pats[1].off_c_dest), (1, usize::MAX));
    assert_eq!(pats[1].cmd, vec![Move::L]);
}

#[test]
fn goal_rows_follow_the_moves() {
    let pats = read_patterns("R_\n__\n__\n!DDR 1\n");
    assert_eq!(pats.len(), 2);
    for q in &pats {
        let down = q.cmd.iter().filter(|m| **m == Move::D).count();
        let up = q.cmd.iter().filter(|m| **m == Move::U).count();
        assert_eq!(q.off_r_dest, q.off_r + down - up);
    }
    let right = pats[0].cmd.iter().filter(|m| **m == Move::R).count();
    assert_eq!(pats[0].off_c_dest, pats[0].off_c + right);
}

#[test]
fn patterns_are_read_block_by_block() {
    let pats = read_patterns("R_\n!R 1\n; a comment\n_R\n\n!L 22\n");
    assert_eq!(pats.len(), 4);
    assert_eq!(pats[0].p, vec![vec![PatSq::Eat, PatSq::Mt]]);
    assert_eq!(pats[0].cost, 1);
    assert_eq!(pats[2].p, vec![vec![PatSq::Mt, PatSq::Eat]]);
    assert_eq!(pats[2].cmd, vec![Move::L]);
    assert_eq!(pats[2].cost, 2);
}

#[test]
fn a_lambda_square_has_no_mirror_image() {
    let pats = read_patterns("\\R\n!L x\n");
    assert_eq!(pats.len(), 1);
    assert_eq!(pats[0].p, vec![vec![PatSq::Lam, PatSq::Eat]]);
    assert_eq!((pats[0].off_r, pats[0].off_c), (1, 1));
    assert_eq!(pats[0].cost, 1);
}

#[test]
fn invalid_pattern_texts() {
    assert!(!patterns_text_valid("Rz\n!R 1\n"));
    assert!(!patterns_text_valid("!R 1\n"));
    assert!(!patterns_text_valid("R\n!R\n"));
    assert!(!patterns_text_valid("R\n!Q 1\n"));
    assert!(patterns_text_valid("; only a comment\n\n"));
}

#[test]
fn pattern_squares() {
    assert!(mtc(PatSq::Eat, Square::Earth));
    assert!(!mtc(PatSq::Eat, Square::Empty));
    assert!(mtc(PatSq::Pass, Square::Empty));
    assert!(mtc(PatSq::FallR, Square::Lambda));
    assert!(!mtc(PatSq::FallL, Square::Lambda));
    assert!(mtc(PatSq::Solid, Square::Wall));
    assert!(mtc(PatSq::NotMt, Square::Bot));
    assert!(mtc(PatSq::Any, Square::Empty));
    assert_eq!(ch_to_patsq('>'), PatSq::FallR);
    assert_eq!(ch_to_patsq('E'), PatSq::Eat);
    let mut ok = true;
    assert_eq!(flip_patsq(PatSq::FallL, &mut ok), PatSq::FallR);
    assert!(ok);
    assert_eq!(flip_patsq(PatSq::Lam, &mut ok), PatSq::Lam);
    assert!(!ok);
}

#[test]
fn matching_a_pattern_on_the_grid() {
    let pats = read_patterns(ONE_PATTERN);
    let st = read_board("#####\n#.  #\n#R  #\n#####\n");
    assert!(match_offset(&pats[0], &st.grid, (2, 2)));
    assert!(!match_offset(&pats[0], &st.grid, (3, 2)));
    assert_eq!(match_show(&pats[0], &st.grid, (2, 2)), ". \n");
}

#[test]
fn targets_and_their_traversals() {
    let pats = read_patterns(ONE_PATTERN);
    let lam = GotoThing::Lambda((2, 3));
    assert_eq!(lam.score(), 25);
    assert_eq!(lam.traverse(), ((2, 3), vec![]));
    assert_eq!(GotoThing::Razor((1, 1)).score(), 5);
    assert_eq!(GotoThing::OpenLift((1, 1)).score(), 9999);
    let via = ViaThing::Pattern((4, 5), pats.into_iter().next().unwrap());
    assert_eq!(via.coord(), (4, 5));
    assert_eq!(via.score(), -2);
    assert_eq!(via.traverse(), ((5, 5), vec![Move::R]));
    assert_eq!((2usize, 3usize).score(), 25);
}

#[test]
fn the_simple_engine_follows_each_finder() {
    let st = read_board(ONE_LAMBDA);
    assert_eq!(simple::mk(PathFind::Brushfire).get_path(st.copy()), vec![Move::R]);
    assert_eq!(simple::mk(PathFind::Astar).get_path(st.copy()), vec![Move::W, Move::R]);
    assert_eq!(simple::mk(PathFind::Precise(BaseFind::Brushfire)).get_path(st.copy()), vec![Move::R]);
    assert_eq!(simple::mk(PathFind::Brushfire).get_path(read_board(NO_LAMBDA)), vec![]);
}

#[test]
fn precise_play_keeps_the_moves_before_a_failure() {
    let st = read_board("######\n#R #\\#\n######\n");
    let (made, res) = path_apply(&vec![Move::R, Move::R, Move::R], &st, true);
    assert_eq!(made, vec![Move::R]);
    assert!(matches!(res, StepResult::Oops));
    let (made, res) = path_apply(&vec![Move::R, Move::A], &st, true);
    assert_eq!(made, vec![Move::R, Move::A]);
    assert!(matches!(res, StepResult::Endgame(-2)));
}

#[test]
fn one_branch_searches_play_the_greedy_game() {
    let s = read_board(CONTEST1);
    let (_, endstate, score) = bblum::greedy_finish(s.copy(), &bblum::default_opts(), &never);
    for depth in [1usize, 10, 31337] {
        let (_, endstate2, score2) = bblum::search(s.copy(), depth, &bblum::default_opts_bfac(1), &never);
        assert!(compare_states(&endstate, &endstate2));
        assert_eq!(score, score2);
    }
}

#[test]
fn a_stopped_engine_only_aborts() {
    let s = read_board(CONTEST1);
    let (rev, end, score) = bblum::greedy_finish(s.copy(), &bblum::default_opts(), &|| true);
    assert_eq!(rev, vec![Move::A]);
    assert!(compare_states(&end, &s));
    assert_eq!(score, s.score);
    let (rev, _, _) = bblum::search(s.copy(), 3, &bblum::default_opts_bfac(2), &|| true);
    assert_eq!(rev, vec![Move::A]);
}

#[test]
fn the_bblum_engine_plays_the_best_line() {
    let st = read_board(ONE_LAMBDA);
    let o = bblum::default_opts();
    assert_eq!(bblum::get_path(&o, st.copy(), &never), vec![Move::R, Move::A]);
    let (rev, _, score) = bblum::search(st.copy(), 2, &bblum::default_opts_bfac(3), &never);
    assert_eq!(rev, vec![Move::A, Move::R]);
    assert_eq!(score, -1);
    let (rev, _, _) = bblum::greedy_finish(st.copy(), &o, &|| true);
    assert_eq!(rev, vec![Move::A]);
}

#[test]
fn the_tobruos_engine_waits_for_a_positive_score() {
    let st = read_board(ONE_LAMBDA);
    let t = tobruos::mk(PathFind::Brushfire);
    assert!(tobruos::get_best_top_option(&t, &st, 3, &never).is_none());
    let (moves, score) = tobruos::get_path_depth(&t, st.copy(), 3, &never);
    assert_eq!(moves, vec![]);
    assert_eq!(score, 0);
}

#[test]
fn the_tobruos_engine_picks_the_first_path_of_the_best_line() {
    let mut st = read_board(ONE_LAMBDA);
    st.score = 10;
    let t = tobruos::mk(PathFind::Brushfire);
    assert_eq!(tobruos::get_best_top_option(&t, &st, 2, &never), Some(vec![Move::R]));
    // At depth 1 the line noted leaves the path off, so there is no first
    // path to answer.
    assert!(tobruos::get_best_top_option(&t, &st, 1, &never).is_none());
    let (moves, score) = tobruos::get_path_depth(&t, st.copy(), 2, &never);
    assert_eq!(moves, vec![Move::R]);
    assert_eq!(score, 9);
}

#[test]
fn the_tobruos_engine_deepens_until_the_signal() {
    let st = read_board(ONE_LAMBDA);
    let t = tobruos::mk(PathFind::Brushfire);
    assert_eq!(tobruos::get_path(&t, st.copy(), &|| true), vec![]);
    let calls = std::cell::Cell::new(0u32);
    let stop_soon = || {
        calls.set(calls.get() + 1);
        calls.get() > 40
    };
    // Every game from a fresh board ends below zero, so none is kept.
    assert_eq!(tobruos::get_path(&t, st.copy(), &stop_soon), vec![]);
    // From a score of 10, looking no path ahead keeps the 10 points, and
    // walking can only lose points: the plan stays empty.
    let mut rich = read_board(ONE_LAMBDA);
    rich.score = 10;
    calls.set(0);
    assert_eq!(tobruos::get_path(&t, rich, &stop_soon), vec![]);
}

const CORRIDOR: &str = "##########\n#\\ R\\   \\#\n##########\n";

#[test]
fn search_beats_greedy_in_a_corridor() {
    // Greedy takes the lambda one move right first and walks 11 moves in
    // all; going left first takes 9.
    let (_, _, greedy) = greedy_finish(read_board(CORRIDOR), &default_opts());
    assert_eq!(greedy, -11);
    let (_, _, best) = search(read_board(CORRIDOR), 1, &default_opts_bfac(2));
    assert_eq!(best, -9);
    assert!(lifter::play::test_search_vs_greedy(CORRIDOR, 1, 2));
    assert!(!lifter::play::test_search_vs_greedy(CORRIDOR, 1, 1));
    assert!(bblum::test_search_vs_greedy(CORRIDOR, 1, 2, &never));
    assert!(!bblum::test_search_vs_greedy(ONE_LAMBDA, 1, 5, &never));
    assert!(!cargomax::test_search_vs_greedy(CORRIDOR, 1, 2, &never));
    assert!(!cargomax::test_search_vs_greedy(NO_LAMBDA, 1, 2, &never));
}

#[test]
fn the_cargomax_engine_stops_at_its_work_queue() {
    let mut o = cargomax::default_opts();
    assert!(cargomax::get_path(&mut o, read_board(ONE_LAMBDA), &never).is_err());
    let mut o = cargomax::default_opts();
    let moves = cargomax::get_path(&mut o, read_board(NO_LAMBDA), &never);
    assert!(matches!(moves, Ok(ref m) if *m == vec![Move::A]));
    let st = read_board(ONE_LAMBDA);
    let (paths, _, score) = cargomax::greedy_all(st.copy(), &o, &never);
    assert_eq!(paths, vec![vec![Move::R]]);
    assert_eq!(score, -1);
}

#[test]
fn comparing_and_finding_known_boards() {
    let a = read_board(ONE_LAMBDA);
    let b = read_board(NO_LAMBDA);
    assert!(compare_states(&a, &a.copy()));
    assert!(!compare_states(&a, &b));
    assert!(!compare_states(&a, &read_board(CONTEST1)));
    let boards: Vec<State> = vec![b.copy(), a.copy(), a.copy()];
    assert_eq!(find_known(&a, &boards), Some(1));
    assert_eq!(find_known(&read_board(CONTEST1), &boards), None);
    let maps = get_known_maps();
    assert_eq!(maps.len(), 15);
    assert_eq!(maps[1], "contest1.map");
}

#[test]
fn moves_as_text() {
    assert_eq!(moves_text(&vec![Move::L, Move::D, Move::R, Move::W, Move::A]), "LDRWA");
}

#[test]
fn a_move_sequence_reports_each_end() {
    assert_eq!(run_moveseq(read_board(ONE_LAMBDA), "RA"), vec![23]);
    assert_eq!(run_moveseq(read_board(ONE_LAMBDA), "AR"), vec![-1]);
    assert_eq!(run_moveseq(read_board(ONE_LAMBDA), "W"), vec![]);
}

#[test]
fn the_plan_is_played_move_after_move() {
    let mut h = human_start(read_board("######\n#R  \\#\n######\n"));
    assert!(matches!(h.step(HumanEvent::Key('n')), HumanAction::NeedPlan));
    assert_eq!(h.bot_n, 0);
    let plan = vec![Move::R, Move::R, Move::R, Move::A];
    assert!(matches!(h.step(HumanEvent::Plan(plan)), HumanAction::Nothing));
    assert_eq!(h.bot_n, 1);
    assert!(matches!(h.step(HumanEvent::Key('n')), HumanAction::Nothing));
    assert_eq!(h.bot_n, 2);
    assert!(matches!(h.step(HumanEvent::Key('n')), HumanAction::Nothing));
    assert_eq!(h.bot_n, 3);
    assert_eq!(h.moves, vec![Move::R, Move::R, Move::R]);
    assert_eq!(h.hist.last().unwrap().robotpos, (5, 2));
}

#[test]
fn the_interactive_game() {
    let mut h = human_start(read_board(ONE_LAMBDA));
    assert!(matches!(h.step(HumanEvent::Key('R')), HumanAction::Nothing));
    assert_eq!(h.hist.len(), 2);
    match h.step(HumanEvent::Key('\n')) {
        HumanAction::Show(t) => assert_eq!(t, "#####\n# R #\n#####\n"),
        _ => panic!("a newline shows the board"),
    }
    assert!(matches!(h.step(HumanEvent::Key('p')), HumanAction::Nothing));
    assert_eq!(h.hist.len(), 1);
    assert_eq!(h.moves.len(), 0);
    assert!(matches!(h.step(HumanEvent::Key('n')), HumanAction::NeedPlan));
    assert!(matches!(h.step(HumanEvent::Plan(vec![Move::R, Move::A])), HumanAction::Nothing));
    assert_eq!(h.bot_n, 1);
    match h.step(HumanEvent::Key('n')) {
        HumanAction::Finished(p, t) => {
            assert_eq!(p, 23);
            assert_eq!(t, "RA");
        }
        _ => panic!("the plan ends with an abort"),
    }
    let mut h = human_start(read_board(ONE_LAMBDA));
    match h.step(HumanEvent::Eof) {
        HumanAction::Finished(p, t) => {
            assert_eq!(p, -1);
            assert_eq!(t, "");
        }
        _ => panic!("the end of the input aborts"),
    }
}

#[test]
fn random_figures_stay_in_range() {
    let mut r = rand::thread_rng();
    for _ in 0..50 {
        let c = rand_map_char(&mut r);
        assert!("#*\\. ".contains(c));
        let f = rand_flooding(&mut r);
        assert!((0..=50).contains(&f));
        let w = rand_waterproof(&mut r);
        assert!((0..=50).contains(&w));
        assert!(rand_water(&mut r, 5) <= 5);
    }
}

#[test]
fn random_board_text_is_walled_and_has_no_robot() {
    let mut r = rand::thread_rng();
    for _ in 0..20 {
        let s = rand_board_text(&mut r, 4, 5);
        let lines: Vec<&str> = s.split('\n').collect();
        assert_eq!(lines.len(), 4);
        assert_eq!(lines[0], "#####");
        assert_eq!(lines[3], "#####");
        for l in &lines[1..3] {
            assert_eq!(l.len(), 5);
            assert!(l.starts_with('#') && l.ends_with('#'));
            assert!(l[1..4].chars().all(|c| "#*\\. ".contains(c)));
        }
        assert!(!s.contains('R'));
        assert!(!lifter::state::board_text_valid(&s));
        let (x, y) = rand_inner_square(&mut r, 4, 5);
        assert!((1..3).contains(&x) && (1..4).contains(&y));
    }
    assert_eq!(rand_board_text(&mut r, 2, 3), "###\n###");
}
