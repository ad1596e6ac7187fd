//! Random figures for generated boards.

use vstd::prelude::*;
use rand::Rng;
use crate::state::{Square, square_char, square_from_char, valid_board_text};
use crate::text::{lemma_map_lines_chars, map_lines};

verus! {

/// The random number generator of the running thread (rand's `ThreadRng`).
#[verifier::external_type_specification]
#[verifier::external_body]
pub struct ExThreadRng(rand::rngs::ThreadRng);

/// rand's `Rng::gen_range` on `low..high`: a number drawn from the range.
/// The claim is only that it lies in the range (rand panics on an empty
/// range, which the precondition rules out).
#[verifier::external_body]
fn gen_uint_range(r: &mut rand::rngs::ThreadRng, low: usize, high: usize) -> (n: usize)
    requires
        low < high,
    ensures
        low <= n < high,
{
    r.gen_range(low..high)
}

/// The characters a generated board's inside is drawn from: walls, rocks
/// and lambdas, earth, empty space, in the proportions of the string
/// `#*\\....    `.
pub open spec fn map_chars() -> Seq<char> {
    seq!['#', '*', '\\', '\\', '.', '.', '.', '.', ' ', ' ', ' ', ' ']
}

/// A random character of `map_chars`.
pub fn rand_map_char(r: &mut rand::rngs::ThreadRng) -> (c: char)
    ensures
        map_chars().contains(c),
{
    let chars: Vec<char> = vec!['#', '*', '\\', '\\', '.', '.', '.', '.', ' ', ' ', ' ', ' '];
    let i = gen_uint_range(r, 0, chars.len());
    proof {
        assert(chars@ == map_chars());
        assert(map_chars()[i as int] == chars@[i as int]);
    }
    chars[i]
}

/// A random flooding rate, from 0 to 50.
pub fn rand_flooding(r: &mut rand::rngs::ThreadRng) -> (n: i64)
    ensures
        0 <= n <= 50,
{
    gen_uint_range(r, 0, 51) as i64
}

/// A random waterproofing, from 0 to 50.
pub fn rand_waterproof(r: &mut rand::rngs::ThreadRng) -> (n: i64)
    ensures
        0 <= n <= 50,
{
    gen_uint_range(r, 0, 51) as i64
}

/// A random water level, from 0 to `m`.
pub fn rand_water(r: &mut rand::rngs::ThreadRng, m: usize) -> (n: usize)
    requires
        m < usize::MAX,
    ensures
        n <= m,
{
    gen_uint_range(r, 0, m + 1)
}

/// A row of `n` walls.
pub open spec fn wall_row(n: nat) -> Seq<char> {
    Seq::new(n, |i: int| '#')
}

/// The inside rows of a board as text: each after a newline, between two
/// walls.
pub open spec fn inside_text(rows: Seq<Seq<char>>) -> Seq<char>
    decreases rows.len(),
{
    if rows.len() == 0 {
        Seq::empty()
    } else {
        inside_text(rows.drop_last()) + seq!['\n', '#'] + rows.last() + seq!['#']
    }
}

/// The text of a board `n` wide with inside rows `rows`: a row of walls,
/// the walled inside rows, a newline and a row of walls.
pub open spec fn walled_text(rows: Seq<Seq<char>>, n: nat) -> Seq<char> {
    wall_row(n) + inside_text(rows) + seq!['\n'] + wall_row(n)
}

/// Inside rows of an `m` by `n` board drawn from `map_chars`.
pub open spec fn random_rows(rows: Seq<Seq<char>>, m: nat, n: nat) -> bool {
    &&& rows.len() + 2 == m
    &&& forall|k: int| 0 <= k < rows.len() ==> #[trigger] rows[k].len() + 2 == n
    &&& forall|k: int, j: int|
        0 <= k < rows.len() && 0 <= j < rows[k].len() ==> map_chars().contains(#[trigger] rows[k][j])
}

/// The one-character text of map character `c`.
fn map_char_text(c: char) -> (t: &'static str)
    requires
        map_chars().contains(c),
    ensures
        t@ == seq![c],
{
    let sq = square_from_char(c);
    proof {
        let i = choose|i: int| 0 <= i < map_chars().len() && map_chars()[i] == c;
        assert(square_char(sq) == c);
    }
    sq.to_str()
}

/// Appends `k` walls to `s`.
fn push_walls(s: &mut String, k: usize)
    ensures
        final(s)@ == old(s)@ + wall_row(k as nat),
{
    let mut i: usize = 0;
    while i < k
        invariant
            i <= k,
            s@ == old(s)@ + wall_row(i as nat),
        decreases k - i,
    {
        s.append(Square::Wall.to_str());
        proof {
            assert(wall_row((i + 1) as nat) =~= wall_row(i as nat) + seq!['#']);
        }
        i += 1;
    }
}

/// The text of an `m` by `n` board walled in, whose inside is drawn from
/// `map_chars` at random: a row of walls, then `m - 2` rows of a wall,
/// `n - 2` drawn characters and a wall, then a row of walls, the rows
/// parted by newlines. It holds no robot, so it is no valid board.
pub fn rand_board_text(r: &mut rand::rngs::ThreadRng, m: usize, n: usize) -> (s: String)
    requires
        2 <= m,
        2 <= n,
    ensures
        exists|rows: Seq<Seq<char>>| random_rows(rows, m as nat, n as nat) && s@ == walled_text(rows, n as nat),
        !valid_board_text(s@),
{
    let mut s = String::new();
    push_walls(&mut s, n);
    let ghost mut rows: Seq<Seq<char>> = Seq::empty();
    let mut k: usize = 0;
    while k < m - 2
        invariant
            2 <= m,
            2 <= n,
            k <= m - 2,
            rows.len() == k,
            forall|a: int| 0 <= a < rows.len() ==> #[trigger] rows[a].len() + 2 == n,
            forall|a: int, j: int|
                0 <= a < rows.len() && 0 <= j < rows[a].len() ==> map_chars().contains(#[trigger] rows[a][j]),
            s@ == wall_row(n as nat) + inside_text(rows),
        decreases m - 2 - k,
    {
        let ghost before = s@;
        proof {
            reveal_strlit("\n");
        }
        s.append("\n");
        s.append(Square::Wall.to_str());
        let ghost mut row: Seq<char> = Seq::empty();
        let mut j: usize = 0;
        while j < n - 2
            invariant
                2 <= n,
                j <= n - 2,
                row.len() == j,
                forall|b: int| 0 <= b < row.len() ==> map_chars().contains(#[trigger] row[b]),
                s@ == before + seq!['\n', '#'] + row,
            decreases n - 2 - j,
        {
            let c = rand_map_char(r);
            s.append(map_char_text(c));
            proof {
                row = row.push(c);
            }
            j += 1;
        }
        s.append(Square::Wall.to_str());
        proof {
            let rows2 = rows.push(row);
            assert(rows2.drop_last() =~= rows);
            assert(rows2.last() == row);
            assert(inside_text(rows2) == inside_text(rows) + seq!['\n', '#'] + row + seq!['#']);
            assert(s@ =~= wall_row(n as nat) + inside_text(rows2));
            assert forall|a: int, b: int|
                0 <= a < rows2.len() && 0 <= b < rows2[a].len() implies map_chars().contains(#[trigger] rows2[a][b]) by {
                if a < rows.len() {
                    assert(rows2[a] == rows[a]);
                }
            }
            rows = rows2;
        }
        k += 1;
    }
    proof {
        reveal_strlit("\n");
    }
    s.append("\n");
    push_walls(&mut s, n);
    proof {
        assert(s@ =~= walled_text(rows, n as nat));
        lemma_no_robot(rows, n as nat);
    }
    s
}

proof fn lemma_inside_text_chars(rows: Seq<Seq<char>>)
    requires
        forall|k: int, j: int|
            0 <= k < rows.len() && 0 <= j < rows[k].len() ==> map_chars().contains(#[trigger] rows[k][j]),
    ensures
        !inside_text(rows).contains('R'),
    decreases rows.len(),
{
    if rows.len() > 0 {
        let init = rows.drop_last();
        assert forall|k: int, j: int|
            0 <= k < init.len() && 0 <= j < init[k].len() implies map_chars().contains(#[trigger] init[k][j]) by {
            assert(init[k] == rows[k]);
        }
        lemma_inside_text_chars(init);
        let t = inside_text(rows);
        let a = inside_text(init);
        let row = rows.last();
        if t.contains('R') {
            let i = choose|i: int| 0 <= i < t.len() && t[i] == 'R';
            if i < a.len() {
                assert(a[i] == t[i]);
            } else if i < a.len() + 2 {
            } else if i < a.len() + 2 + row.len() {
                assert(t[i] == row[i - a.len() - 2]);
                assert(map_chars().contains(rows[rows.len() - 1][i - a.len() - 2]));
            }
        }
    }
}

proof fn lemma_no_robot(rows: Seq<Seq<char>>, n: nat)
    requires
        forall|k: int, j: int|
            0 <= k < rows.len() && 0 <= j < rows[k].len() ==> map_chars().contains(#[trigger] rows[k][j]),
    ensures
        !valid_board_text(walled_text(rows, n)),
{
    let t = walled_text(rows, n);
    lemma_inside_text_chars(rows);
    assert(!t.contains('R')) by {
        if t.contains('R') {
            let i = choose|i: int| 0 <= i < t.len() && t[i] == 'R';
            let w = wall_row(n);
            let it = inside_text(rows);
            if i < n {
                assert(t[i] == w[i]);
            } else if i < n + it.len() {
                assert(t[i] == it[i - n]);
            }
        }
    }
    lemma_map_lines_chars(t);
    let ls = map_lines(t);
    if valid_board_text(t) {
        let (yi, xi) = choose|yi: int, xi: int| crate::state::robot_at(ls, yi, xi);
        assert(t.contains(ls[yi][xi]));
    }
}

/// A random square strictly inside an `m` by `n` board: a row from 1 to
/// `m - 2` and a column from 1 to `n - 2`.
pub fn rand_inner_square(r: &mut rand::rngs::ThreadRng, m: usize, n: usize) -> (p: (usize, usize))
    requires
        3 <= m,
        3 <= n,
    ensures
        1 <= p.0 < m - 1,
        1 <= p.1 < n - 1,
{
    let x = gen_uint_range(r, 1, m - 1);
    let y = gen_uint_range(r, 1, n - 1);
    (x, y)
}

} // verus!
