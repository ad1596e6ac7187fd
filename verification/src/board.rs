//! The first board representation: a grid read as it is written, top row
//! first, with its own safety rule.

use vstd::prelude::*;
use crate::state::{
    Square, Move, char_square, flipped, line_squares, rect, sq, square_from_char,
};
use crate::text::{chars_of, nl_index, all_lines, lemma_nl_index, lemma_nl_index_bound};

verus! {

/// The rows of a board grid as sequences, top row first.
pub open spec fn rows_of(g: &Vec<Vec<Square>>) -> Seq<Seq<Square>> {
    g@.map_values(|row: Vec<Square>| row@)
}

/// Left and right swapped; other moves unchanged.
pub fn flip_move(m: Move) -> (f: Move)
    ensures
        f == flipped(m),
{
    match m {
        Move::L => Move::R,
        Move::R => Move::L,
        _ => m,
    }
}

/// Moving into row `r` (from the top), column `c` is safe: the square is on
/// the top row, the left column or the right column, or no rock stands right
/// above it, nor a rock above left resting on a rock or lambda, nor a rock
/// above right resting on a rock.
pub open spec fn spec_board_safe(g: Seq<Seq<Square>>, r: int, c: int) -> bool {
    if r == 0 || c == 0 || c == g[0].len() - 1 {
        true
    } else {
        !(sq(g, r - 1, c) == Square::Rock || (sq(g, r - 1, c - 1) == Square::Rock && (sq(g, r, c - 1)
            == Square::Rock || sq(g, r, c - 1) == Square::Lambda)) || (sq(g, r - 1, c + 1)
            == Square::Rock && sq(g, r, c + 1) == Square::Rock))
    }
}

pub open spec fn board_safe_defined(g: Seq<Seq<Square>>, r: int, c: int) -> bool {
    let above = sq(g, r - 1, c) == Square::Rock;
    let left = sq(g, r - 1, c - 1) == Square::Rock && (sq(g, r, c - 1) == Square::Rock || sq(
        g,
        r,
        c - 1,
    ) == Square::Lambda);
    &&& rect(g)
    &&& 0 <= r && 0 <= c
    &&& !(r == 0 || c == 0 || c == g[0].len() - 1) ==> {
        &&& r - 1 < g.len() && c < g[0].len()
        &&& !above && sq(g, r - 1, c - 1) == Square::Rock ==> r < g.len()
        &&& !above && !left && sq(g, r - 1, c + 1) == Square::Rock ==> r < g.len()
    }
}

/// Is it safe to move into this tile next turn?
pub fn safe(g: &Vec<Vec<Square>>, r: usize, c: usize) -> (b: bool)
    requires
        board_safe_defined(rows_of(g), r as int, c as int),
    ensures
        b == spec_board_safe(rows_of(g), r as int, c as int),
{
    let ghost gs = rows_of(g);
    proof {
        assert(gs[0] == g@[0]@);
        assert(forall|i: int| 0 <= i < gs.len() ==> #[trigger] gs[i] == g@[i]@);
    }
    if r == 0 || c == 0 || c == g[0].len() - 1 {
        true
    } else {
        proof {
            assert(gs[r - 1].len() == gs[0].len());
            if (r as int) < gs.len() {
                assert(gs[r as int].len() == gs[0].len());
            }
        }
        !(g[r - 1][c] == Square::Rock || (g[r - 1][c - 1] == Square::Rock && (g[r][c - 1]
            == Square::Rock || g[r][c - 1] == Square::Lambda)) || (g[r - 1][c + 1] == Square::Rock
            && g[r][c + 1] == Square::Rock))
    }
}

/// Can the robot pass through this tile safely: it is no rock, wall or
/// closed lift, and it is safe.
pub fn safely_passable(g: &Vec<Vec<Square>>, r: usize, c: usize) -> (b: bool)
    requires
        0 <= r < rows_of(g).len() && 0 <= c < rows_of(g)[r as int].len(),
        !(sq(rows_of(g), r as int, c as int) == Square::Rock || sq(rows_of(g), r as int, c as int)
            == Square::Wall || sq(rows_of(g), r as int, c as int) == Square::LiftC)
            ==> board_safe_defined(rows_of(g), r as int, c as int),
    ensures
        b == (!(sq(rows_of(g), r as int, c as int) == Square::Rock || sq(rows_of(g), r as int, c as int)
            == Square::Wall || sq(rows_of(g), r as int, c as int) == Square::LiftC)
            && spec_board_safe(rows_of(g), r as int, c as int)),
{
    proof {
        assert(rows_of(g)[r as int] == g@[r as int]@);
    }
    match g[r][c] {
        Square::Rock | Square::Wall | Square::LiftC => false,
        _ => safe(g, r, c),
    }
}

/// Lines that make a board grid: at least one, all as long as the first, of
/// map characters only.
pub open spec fn valid_grid_lines(ls: Seq<Seq<char>>) -> bool {
    &&& ls.len() >= 1
    &&& forall|r: int| 0 <= r < ls.len() ==> #[trigger] ls[r].len() == ls[0].len()
    &&& forall|r: int, c: int|
        0 <= r < ls.len() && 0 <= c < ls[r].len() ==> (#[trigger] char_square(ls[r][c])) is Some
}

/// Reads a grid, top row first, from all lines of the input.
pub fn read_board_grid(input: &str) -> (g: Vec<Vec<Square>>)
    requires
        valid_grid_lines(all_lines(input@)),
    ensures
        rows_of(&g) == all_lines(input@).map_values(|l: Seq<char>| line_squares(l)),
{
    let cs = chars_of(input);
    let n = cs.len();
    let ghost ls = all_lines(cs@);
    let mut grid: Vec<Vec<Square>> = Vec::new();
    let ghost mut done: Seq<Seq<char>> = Seq::empty();
    let mut i: usize = 0;
    proof {
        assert(cs@.skip(0) =~= cs@);
    }
    while i < n
        invariant
            n == cs@.len(),
            cs@ == input@,
            i <= n,
            ls == all_lines(cs@),
            valid_grid_lines(ls),
            ls == done + all_lines(cs@.skip(i as int)),
            grid@.len() == done.len(),
            forall|r: int| 0 <= r < done.len() ==> #[trigger] grid@[r]@ == line_squares(done[r]),
        decreases n - i,
    {
        let start = i;
        let ghost rest = cs@.skip(start as int);
        let ghost k = nl_index(rest);
        proof {
            lemma_nl_index_bound(rest);
        }
        let mut row: Vec<Square> = Vec::new();
        while i < n && cs[i] != '\n'
            invariant
                n == cs@.len(),
                start <= i <= n,
                start < n,
                rest == cs@.skip(start as int),
                k == nl_index(rest),
                k <= rest.len(),
                k < rest.len() ==> rest[k as int] == '\n',
                ls == all_lines(cs@),
                valid_grid_lines(ls),
                ls == done + all_lines(rest),
                forall|t: int| start <= t < i ==> cs@[t] != '\n',
                i - start <= k,
                row@ == line_squares(rest.take(k as int)).take(i - start),
            decreases n - i,
        {
            proof {
                assert(rest[i - start] == cs@[i as int]);
                assert(i - start < k);
                let line = rest.take(k as int);
                assert(all_lines(rest)[0] == line);
                assert(ls[done.len() as int] == line);
                assert(line[i - start] == cs@[i as int]);
                assert(char_square(ls[done.len() as int][i - start]) is Some);
            }
            row.push(square_from_char(cs[i]));
            proof {
                let line = rest.take(k as int);
                assert(row@ =~= line_squares(line).take(i + 1 - start));
            }
            i += 1;
        }
        proof {
            lemma_nl_index(rest, (i - start) as nat);
            let line = rest.take(k as int);
            assert(row@ =~= line_squares(line));
            done = done.push(line);
            if i < n {
                assert(rest.skip((k + 1) as int) =~= cs@.skip(i + 1));
                assert(all_lines(rest) == seq![line] + all_lines(rest.skip((k + 1) as int)));
                assert(ls =~= done + all_lines(cs@.skip(i + 1)));
            } else {
                assert(cs@.skip(i as int) =~= Seq::<char>::empty());
                assert(rest.take(k as int) =~= rest);
                assert(all_lines(rest) == seq![line]);
                assert(ls =~= done + all_lines(cs@.skip(i as int)));
            }
        }
        grid.push(row);
        if i < n {
            i += 1;
        }
    }
    proof {
        assert(cs@.skip(i as int) =~= Seq::<char>::empty());
        assert(done =~= ls);
        assert(rows_of(&grid) =~= ls.map_values(|l: Seq<char>| line_squares(l)));
    }
    grid
}

} // verus!
