use lifter::board::{flip_move, read_board_grid, safe, safely_passable};
use lifter::path::{compute_delta, get_neighbors, invert_move};
use lifter::state::{fallable, left_fallable, read_board, right_fallable, taxicab_distance, Move, Square, StepResult};
use lifter::text::split_lines;

#[test]
fn flipping_twice_gives_the_move_back() {
    for m in [Move::U, Move::D, Move::L, Move::R, Move::W, Move::A] {
        assert_eq!(flip_move(flip_move(m)), m);
        assert_eq!(m.flip().flip(), m);
        assert_eq!(invert_move(invert_move(m)), m);
    }
    assert_eq!(flip_move(Move::L), Move::R);
    assert_eq!(invert_move(Move::U), Move::D);
    assert_eq!(invert_move(Move::W), Move::W);
}

#[test]
fn taxicab_is_symmetric() {
    assert_eq!(taxicab_distance((2, 9), (7, 1)), taxicab_distance((7, 1), (2, 9)));
    assert_eq!(taxicab_distance((2, 9), (7, 1)), 13);
}

#[test]
fn a_printed_board_reads_back() {
    let text = "#####\n#R*\\#\n#. L#\n#####\n";
    let st = read_board(text);
    assert_eq!(st.to_str(), text);
    assert_eq!(read_board(&st.to_str()).to_str(), text);
}

#[test]
fn lines_are_cut_at_newlines() {
    assert_eq!(split_lines("ab\n\ncd"), vec![vec!['a', 'b'], vec![], vec!['c', 'd']]);
    assert_eq!(split_lines("ab\n"), vec![vec!['a', 'b']]);
    assert_eq!(split_lines(""), Vec::<Vec<char>>::new());
}

#[test]
fn board_grids_read_top_row_first() {
    let g = read_board_grid("#*#\n# #\n");
    assert_eq!(g, vec![vec![Square::Wall, Square::Rock, Square::Wall], vec![Square::Wall, Square::Empty, Square::Wall]]);
    assert!(!safe(&g, 1, 1));
    assert!(safe(&g, 0, 1));
    assert!(!safely_passable(&g, 1, 0));
    let h = read_board_grid("#  #\n#  #\n");
    assert!(safely_passable(&h, 1, 1));
}

#[test]
fn falling_rules() {
    let st = read_board("#####\n# * #\n# *R#\n#   #\n#####\n");
    let g = &st.grid;
    assert!(right_fallable(g, 2, 2) == false);
    let st = read_board("#####\n# * #\n# * #\n# R #\n#####\n");
    let g = &st.grid;
    assert!(right_fallable(g, 2, 2));
    assert!(!left_fallable(g, 2, 2));
    assert!(fallable(g, 3, 2));
    assert!(!fallable(g, 2, 2));
    assert!(!fallable(g, 1, 2));
    let st = read_board("#####\n# *##\n# *##\n#  R#\n#####\n");
    let g = &st.grid;
    assert!(!right_fallable(g, 2, 2));
    assert!(left_fallable(g, 2, 2));
    assert!(fallable(g, 3, 2));
    let st = read_board("#####\n# *R#\n#   #\n#####\n");
    assert!(fallable(&st.grid, 2, 2));
}

#[test]
fn a_boulder_about_to_slide_above_the_robot_is_unsafe() {
    let st = read_board("#####\n#*  #\n#*  #\n#  R#\n#####\n");
    assert!(!lifter::state::safe(&st.grid, 1, 2));
    assert!(lifter::state::safe(&st.grid, 1, 3));
    let st = read_board("#####\n#  *#\n#  *#\n#R  #\n#####\n");
    assert!(!lifter::state::safe(&st.grid, 1, 2));
    let st = read_board("#####\n# * #\n#   #\n#  R#\n#####\n");
    assert!(!lifter::state::safe(&st.grid, 1, 2));
    assert!(lifter::state::safe(&st.grid, 1, 1));
}

#[test]
fn neighbours_and_deltas() {
    assert_eq!(
        get_neighbors((3, 4)),
        vec![((4, 4), Move::R), ((3, 5), Move::U), ((2, 4), Move::L), ((3, 3), Move::D)]
    );
    assert_eq!(compute_delta(&vec![Move::R, Move::R, Move::U, Move::L]), (1, 1));
    assert_eq!(compute_delta(&vec![Move::L]), (usize::MAX, 0));
}

#[test]
fn a_path_to_a_lambda_and_back() {
    let st = read_board("######\n#R  \\#\n######\n");
    let dests = vec![Some((5usize, 2usize))];
    let (found, fire) = lifter::path::genpaths(&st.grid, st.robotpos, &dests);
    let (p, _) = found.expect("the lambda is in reach");
    assert_eq!(p, vec![Move::R, Move::R, Move::R]);
    let back: Vec<Move> = p.iter().rev().map(|m| invert_move(*m)).collect();
    assert_eq!(back, vec![Move::L, Move::L, Move::L]);
    assert!(fire.visited[1][4].0);
}

#[test]
fn a_walked_path_is_the_steps_one_by_one() {
    let st = read_board("######\n#R  \\#\n######\n");
    let mut s = st.copy();
    for m in [Move::R, Move::R] {
        s = match s.step(m, false) {
            StepResult::Stepped(n) => n,
            _ => panic!("the way is clear"),
        };
    }
    match lifter::path::apply(&vec![Move::R, Move::R], &st, false) {
        StepResult::Stepped(n) => {
            assert_eq!(n.robotpos, s.robotpos);
            assert_eq!(n.score, s.score);
            assert_eq!(n.to_str(), s.to_str());
        }
        _ => panic!("the way is clear"),
    }
}
