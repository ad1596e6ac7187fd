use lifter::board::read_board_grid;
use lifter::state::{read_board, board_text_valid, taxicab_distance, Move, Square, StepResult};

const CONTEST1: &str = "######\n#. *R#\n#  \\.#\n#\\ * #\nL  .\\#\n######\n";

fn check_step(s1: &str, m: Move, s2: &str) {
    let b = read_board(s1);
    let b = match b.step(m, false) {
        StepResult::Stepped(b) => b,
        _ => panic!("expected the game to go on"),
    };
    let got = b.grid.to_str();
    if got != s2 {
        println!("Starting board:");
        println!("{}", s1);
        println!("\nStepped to:");
        println!("{}", got);
        println!("\nShould have stepped to:");
        println!("{}", s2);
        panic!("wrong step");
    }
}

#[test]
fn boulder1() {
    check_step(
        "#####\n# R #\n# * #\n#   #\n#####\n",
        Move::W,
        "#####\n# R #\n#   #\n# * #\n#####\n",
    );
}

#[test]
fn boulder2() {
    check_step(
        "#####\n# R #\n# * #\n# * #\n#####\n",
        Move::W,
        "#####\n# R #\n#   #\n# **#\n#####\n",
    );
}

#[test]
fn boulder3() {
    check_step(
        "#####\n# R #\n# * #\n# * #\n# * #\n#####\n",
        Move::W,
        "#####\n# R #\n#   #\n#  *#\n# **#\n#####\n",
    );
}

#[test]
fn boulder4() {
    check_step(
        "#####\n# R #\n#   #\n#* *#\n#* *#\n#####\n",
        Move::W,
        "#####\n# R #\n#   #\n#   #\n#***#\n#####\n",
    );
}

#[test]
fn state_trivial_to_str() {
    assert!(Square::Lambda.to_str() == "\\");
}

#[test]
fn board_trivial_to_str() {
    assert!(Square::Lambda.to_str() == "\\");
}

#[test]
fn board_read_simple_board() {
    read_board_grid(CONTEST1);
}

#[test]
fn deparse() {
    let s = "####\nR*LO\n. ##\n";
    let s2 = read_board(s).to_str();
    assert!(s == s2);
}

#[test]
fn state_read_simple_board() {
    let st = read_board(CONTEST1);
    assert_eq!(st.robotpos, (5, 5));
    assert_eq!(st.grid.rows.len(), 6);
    assert_eq!(st.grid.at((1, 2)), Square::LiftC);
    assert_eq!(st.score, 0);
}

#[test]
fn reads_only_up_to_the_empty_line() {
    let st = read_board("#R#\n###\n\nWater 3\n");
    assert_eq!(st.grid.to_str(), "#R#\n###\n");
    assert_eq!(st.robotpos, (2, 2));
}

#[test]
fn validity_of_board_texts() {
    assert!(board_text_valid(CONTEST1));
    assert!(!board_text_valid(""));
    assert!(!board_text_valid("#R#\n##\n"));
    assert!(!board_text_valid("#R#\n#R#\n"));
    assert!(!board_text_valid("###\n###\n"));
    assert!(!board_text_valid("#R#\n#x#\n"));
    assert!(board_text_valid("#R#\n###\n\n#x\n"));
}

#[test]
fn abort_scores_the_lambdas_collected() {
    let mut st = read_board(CONTEST1);
    st.lambdas = 3;
    st.score = 10;
    match st.step(Move::A, true) {
        StepResult::Endgame(p) => assert_eq!(p, 9 + 75),
        _ => panic!("abort must end the game"),
    }
}

#[test]
fn abort_reads_no_square() {
    let mut st = read_board(CONTEST1);
    st.grid.rows = vec![];
    st.robotpos = (0, 0);
    st.lambdas = 2;
    st.score = 5;
    for strict in [true, false] {
        match st.step(Move::A, strict) {
            StepResult::Endgame(p) => assert_eq!(p, 4 + 50),
            _ => panic!("abort must end the game"),
        }
    }
}

#[test]
fn eating_a_lambda_counts_it() {
    let st = read_board("#####\n#R\\ #\n#####\n");
    match st.step(Move::R, true) {
        StepResult::Stepped(n) => {
            assert_eq!(n.robotpos, (3, 2));
            assert_eq!(n.lambdas, 1);
            assert_eq!(n.lambdasleft, 0);
            assert_eq!(n.score, -1);
            assert_eq!(n.grid.to_str(), "#####\n# R #\n#####\n");
        }
        _ => panic!("the move is legal"),
    }
}

#[test]
fn pushing_a_rock() {
    let st = read_board("######\n#R*  #\n######\n");
    match st.step(Move::R, true) {
        StepResult::Stepped(n) => assert_eq!(n.grid.to_str(), "######\n# R* #\n######\n"),
        _ => panic!("the push is legal"),
    }
}

#[test]
fn walking_into_a_wall() {
    let st = read_board("####\n#R #\n####\n");
    assert!(matches!(st.step(Move::U, true), StepResult::Oops));
    match st.step(Move::U, false) {
        StepResult::Stepped(n) => {
            assert_eq!(n.robotpos, (2, 2));
            assert_eq!(n.grid.to_str(), "####\n#R #\n####\n");
        }
        _ => panic!("a lenient illegal move waits"),
    }
}

#[test]
fn an_unpushable_rock_stops_the_robot() {
    let st = read_board("#####\n#R*##\n#####\n");
    assert!(matches!(st.step(Move::R, true), StepResult::Oops));
    match st.step(Move::R, false) {
        StepResult::Stepped(n) => {
            assert_eq!(n.robotpos, st.robotpos);
            assert_eq!(n.score, st.score - 1);
            assert_eq!(n.flooding, st.flooding);
            assert_eq!(n.water, st.water);
            assert_eq!(n.grid.to_str(), "#####\n#R*##\n#####\n");
        }
        _ => panic!("a lenient illegal move waits"),
    }
}

#[test]
fn closed_lift_opens_and_wins() {
    let st = read_board("#####\n#R L#\n#####\n");
    let n = match st.step(Move::R, true) {
        StepResult::Stepped(n) => n,
        _ => panic!("the move is legal"),
    };
    assert_eq!(n.grid.to_str(), "#####\n# RO#\n#####\n");
    match n.step(Move::R, true) {
        StepResult::Endgame(p) => assert_eq!(p, -2),
        _ => panic!("entering the open lift wins"),
    }
}

#[test]
fn rock_falling_below_the_robot_spares_it() {
    let st = read_board("######\n#R*  #\n## ###\n######\n");
    assert_eq!(st.robotpos, (2, 3));
    match st.step(Move::R, true) {
        StepResult::Stepped(n) => assert_eq!(n.robotpos, (3, 3)),
        _ => panic!("a rock landing below the robot does no harm"),
    }
}

#[test]
fn rock_lands_right_above_the_robot() {
    let st = read_board("#####\n# * #\n#   #\n# R #\n#####\n");
    assert_eq!(st.robotpos, (3, 2));
    assert!(matches!(st.step(Move::W, true), StepResult::Oops));
    match st.step(Move::W, false) {
        StepResult::Endgame(p) => assert_eq!(p, -1),
        _ => panic!("the robot is crushed"),
    }
}

#[test]
fn a_lambda_count_opens_the_lift_only_when_all_are_eaten() {
    let st = read_board("#######\n#R\\\\ L#\n#######\n");
    assert_eq!(st.lambdasleft, 2);
    let n = match st.step(Move::R, true) {
        StepResult::Stepped(n) => n,
        _ => panic!("the move is legal"),
    };
    assert_eq!(n.lambdasleft, 1);
    assert_eq!(n.grid.to_str(), "#######\n# R\\ L#\n#######\n");
    let n = match n.step(Move::R, true) {
        StepResult::Stepped(n) => n,
        _ => panic!("the move is legal"),
    };
    assert_eq!(n.lambdasleft, 0);
    assert_eq!(n.grid.to_str(), "#######\n#  R L#\n#######\n");
    match n.step(Move::W, true) {
        StepResult::Stepped(n) => assert_eq!(n.grid.to_str(), "#######\n#  R O#\n#######\n"),
        _ => panic!("waiting is legal"),
    }
}

#[test]
fn rock_lands_on_the_robot_square() {
    let st = read_board("#####\n# * #\n#   #\n# R #\n#####\n");
    match st.step(Move::U, true) {
        StepResult::Stepped(n) => {
            assert_eq!(n.robotpos, (3, 3));
            assert_eq!(n.grid.to_str(), "#####\n#   #\n# * #\n#   #\n#####\n");
        }
        _ => panic!("the game goes on"),
    }
}

#[test]
fn taxicab() {
    assert_eq!(taxicab_distance((1, 7), (4, 3)), 7);
    assert_eq!(taxicab_distance((4, 3), (4, 3)), 0);
}

#[test]
fn squares_in_update_order() {
    let st = read_board("#R\n*.\n");
    let sq = st.grid.squares();
    assert_eq!(sq, vec![Square::Rock, Square::Earth, Square::Wall, Square::Bot]);
    let si = st.grid.squares_i();
    assert_eq!(si[1], (Square::Earth, (2, 1)));
    assert_eq!(st.grid.lambdas(), vec![]);
    let total = st.grid.foldl(0usize, |n: usize, s: Square, _c: (usize, usize)| if s == Square::Wall { n + 1 } else { n });
    assert_eq!(total, 1);
}
