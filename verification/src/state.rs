//! The mine: squares, moves, the grid, the robot's state and one step of
//! the simulation.

use vstd::prelude::*;
use crate::text::{chars_of, nl_index, map_lines, lemma_nl_index, lemma_nl_index_bound};

verus! {

/// One square of the mine.
#[derive(Clone, Copy, PartialEq, Eq, Structural, Debug)]
pub enum Square {
    Bot,
    Wall,
    Rock,
    Lambda,
    LiftC,
    LiftO,
    Earth,
    Empty,
}

/// A move of the robot: up, down, left, right, wait, abort.
#[derive(Clone, Copy, PartialEq, Eq, Structural, Debug)]
pub enum Move {
    U,
    D,
    L,
    R,
    W,
    A,
}

/// The character that stands for a square in a map.
pub open spec fn square_char(s: Square) -> char {
    match s {
        Square::Bot => 'R',
        Square::Wall => '#',
        Square::Rock => '*',
        Square::Lambda => '\\',
        Square::LiftC => 'L',
        Square::LiftO => 'O',
        Square::Earth => '.',
        Square::Empty => ' ',
    }
}

/// The square that a map character stands for, if any.
pub open spec fn char_square(c: char) -> Option<Square> {
    if c == 'R' {
        Some(Square::Bot)
    } else if c == '#' {
        Some(Square::Wall)
    } else if c == '*' {
        Some(Square::Rock)
    } else if c == '\\' {
        Some(Square::Lambda)
    } else if c == 'L' {
        Some(Square::LiftC)
    } else if c == 'O' {
        Some(Square::LiftO)
    } else if c == '.' {
        Some(Square::Earth)
    } else if c == ' ' {
        Some(Square::Empty)
    } else {
        None
    }
}

/// The move that a character names, either case.
pub open spec fn char_move(c: char) -> Option<Move> {
    if c == 'u' || c == 'U' {
        Some(Move::U)
    } else if c == 'd' || c == 'D' {
        Some(Move::D)
    } else if c == 'l' || c == 'L' {
        Some(Move::L)
    } else if c == 'r' || c == 'R' {
        Some(Move::R)
    } else if c == 'w' || c == 'W' {
        Some(Move::W)
    } else if c == 'a' || c == 'A' {
        Some(Move::A)
    } else {
        None
    }
}

/// The upper-case letter of a move.
pub open spec fn move_char(m: Move) -> char {
    match m {
        Move::U => 'U',
        Move::D => 'D',
        Move::L => 'L',
        Move::R => 'R',
        Move::W => 'W',
        Move::A => 'A',
    }
}

/// Left and right swapped; other moves unchanged.
pub open spec fn flipped(m: Move) -> Move {
    match m {
        Move::L => Move::R,
        Move::R => Move::L,
        _ => m,
    }
}

/// The square a map character stands for; other characters are refused.
pub fn square_from_char(c: char) -> (s: Square)
    requires
        char_square(c) is Some,
    ensures
        char_square(c) == Some(s),
{
    match c {
        'R' => Square::Bot,
        '#' => Square::Wall,
        '*' => Square::Rock,
        '\\' => Square::Lambda,
        'L' => Square::LiftC,
        'O' => Square::LiftO,
        '.' => Square::Earth,
        _ => Square::Empty,
    }
}

/// The move a character names; other characters are refused.
pub fn move_from_char(c: char) -> (m: Move)
    requires
        char_move(c) is Some,
    ensures
        char_move(c) == Some(m),
{
    match c {
        'u' | 'U' => Move::U,
        'd' | 'D' => Move::D,
        'l' | 'L' => Move::L,
        'r' | 'R' => Move::R,
        'w' | 'W' => Move::W,
        _ => Move::A,
    }
}

impl Square {
    /// The map character of the square, as a string.
    pub fn to_str(&self) -> (s: &'static str)
        ensures
            s@ == seq![square_char(*self)],
    {
        match self {
            Square::Bot => {
                proof {
                    reveal_strlit("R");
                }
                "R"
            },
            Square::Wall => {
                proof {
                    reveal_strlit("#");
                }
                "#"
            },
            Square::Rock => {
                proof {
                    reveal_strlit("*");
                }
                "*"
            },
            Square::Lambda => {
                proof {
                    reveal_strlit("\\");
                }
                "\\"
            },
            Square::LiftC => {
                proof {
                    reveal_strlit("L");
                }
                "L"
            },
            Square::LiftO => {
                proof {
                    reveal_strlit("O");
                }
                "O"
            },
            Square::Earth => {
                proof {
                    reveal_strlit(".");
                }
                "."
            },
            Square::Empty => {
                proof {
                    reveal_strlit(" ");
                }
                " "
            },
        }
    }
}

impl Move {
    /// Left and right swapped; other moves unchanged.
    pub fn flip(&self) -> (m: Move)
        ensures
            m == flipped(*self),
    {
        match self {
            Move::L => Move::R,
            Move::R => Move::L,
            _ => *self,
        }
    }

    /// The upper-case letter of the move, as a string.
    pub fn to_str(&self) -> (s: &'static str)
        ensures
            s@ == seq![move_char(*self)],
    {
        match self {
            Move::U => {
                proof {
                    reveal_strlit("U");
                }
                "U"
            },
            Move::D => {
                proof {
                    reveal_strlit("D");
                }
                "D"
            },
            Move::L => {
                proof {
                    reveal_strlit("L");
                }
                "L"
            },
            Move::R => {
                proof {
                    reveal_strlit("R");
                }
                "R"
            },
            Move::W => {
                proof {
                    reveal_strlit("W");
                }
                "W"
            },
            Move::A => {
                proof {
                    reveal_strlit("A");
                }
                "A"
            },
        }
    }
}

/// A position in world coordinates: `(x, y)`, 1-based, `y` counted from the
/// bottom row.
pub type Coord = (usize, usize);

/// The mine's squares, bottom row first.
pub struct Grid {
    pub rows: Vec<Vec<Square>>,
}

/// The square at world coordinates `(x, y)` of a grid given bottom row first.
pub open spec fn cell(g: Seq<Seq<Square>>, x: int, y: int) -> Square {
    g[y - 1][x - 1]
}

/// Whether `(x, y)` names a square of the grid.
pub open spec fn inb(g: Seq<Seq<Square>>, x: int, y: int) -> bool {
    1 <= y <= g.len() && 1 <= x <= g[y - 1].len()
}

/// The grid with the square at `(x, y)` replaced by `s`.
pub open spec fn put(g: Seq<Seq<Square>>, x: int, y: int, s: Square) -> Seq<Seq<Square>> {
    g.update(y - 1, g[y - 1].update(x - 1, s))
}

/// A grid is a non-empty rectangle of squares.
pub open spec fn rect(g: Seq<Seq<Square>>) -> bool {
    &&& g.len() >= 1
    &&& g[0].len() >= 1
    &&& forall|r: int| 0 <= r < g.len() ==> #[trigger] g[r].len() == g[0].len()
}

impl View for Grid {
    type V = Seq<Seq<Square>>;

    open spec fn view(&self) -> Seq<Seq<Square>> {
        self.rows@.map_values(|row: Vec<Square>| row@)
    }
}

impl Grid {
    /// The square at `c`.
    pub fn at(&self, c: Coord) -> (s: Square)
        requires
            inb(self@, c.0 as int, c.1 as int),
        ensures
            s == cell(self@, c.0 as int, c.1 as int),
    {
        let (x, y) = c;
        self.rows[y - 1][x - 1]
    }

    /// Replaces the square at `c` with `s`.
    pub fn set(&mut self, c: Coord, s: Square)
        requires
            inb(old(self)@, c.0 as int, c.1 as int),
        ensures
            final(self)@ == put(old(self)@, c.0 as int, c.1 as int, s),
    {
        let (x, y) = c;
        self.rows[y - 1][x - 1] = s;
        assert(self@ =~= put(old(self)@, x as int, y as int, s));
    }

    /// Every row of the grid, and the number of rows, fit in a `usize`.
    pub proof fn lemma_lens_fit(&self)
        ensures
            self@.len() <= usize::MAX,
            forall|r: int| 0 <= r < self@.len() ==> #[trigger] self@[r].len() <= usize::MAX,
    {
        assert(self.rows@.len() == self.rows.len());
        assert forall|r: int| 0 <= r < self@.len() implies #[trigger] self@[r].len()
            <= usize::MAX by {
            assert(self@[r] == self.rows@[r]@);
            assert(self.rows@[r]@.len() == self.rows@[r].len());
        }
    }

    /// A copy of the grid.
    pub fn copy(&self) -> (g: Grid)
        ensures
            g@ == self@,
    {
        let mut rows: Vec<Vec<Square>> = Vec::new();
        let mut r: usize = 0;
        while r < self.rows.len()
            invariant
                r <= self.rows.len(),
                rows@.len() == r,
                forall|i: int| 0 <= i < r ==> #[trigger] rows@[i]@ == self.rows@[i]@,
            decreases self.rows.len() - r,
        {
            let src = &self.rows[r];
            let mut row: Vec<Square> = Vec::new();
            let mut c: usize = 0;
            while c < src.len()
                invariant
                    c <= src.len(),
                    row@ == src@.subrange(0, c as int),
                decreases src.len() - c,
            {
                row.push(src[c]);
                c += 1;
            }
            assert(row@ =~= src@);
            rows.push(row);
            r += 1;
        }
        let g = Grid { rows };
        assert(g@ =~= self@);
        g
    }
}


/// The robot's world: the intrinsics of the mine, its grid and the robot.
pub struct State {
    pub flooding: i64,
    pub waterproof: i64,
    pub grid: Grid,
    pub robotpos: Coord,
    pub water: i64,
    pub nextflood: i64,
    pub underwater: i64,
    pub lambdas: i64,
    pub lambdasleft: i64,
    pub score: i64,
}

/// What a state is, mathematically.
pub struct StateView {
    pub flooding: int,
    pub waterproof: int,
    pub grid: Seq<Seq<Square>>,
    pub robot: (int, int),
    pub water: int,
    pub nextflood: int,
    pub underwater: int,
    pub lambdas: int,
    pub lambdasleft: int,
    pub score: int,
}

impl View for State {
    type V = StateView;

    open spec fn view(&self) -> StateView {
        StateView {
            flooding: self.flooding as int,
            waterproof: self.waterproof as int,
            grid: self.grid@,
            robot: (self.robotpos.0 as int, self.robotpos.1 as int),
            water: self.water as int,
            nextflood: self.nextflood as int,
            underwater: self.underwater as int,
            lambdas: self.lambdas as int,
            lambdasleft: self.lambdasleft as int,
            score: self.score as int,
        }
    }
}

/// The outcome of one step.
pub enum StepResult {
    /// The game goes on in this state.
    Stepped(State),
    /// The game is over, with these points.
    Endgame(i64),
    /// The robot died, or made an illegal move in strict mode.
    Oops,
}

/// The outcome of one step, mathematically.
pub enum StepView {
    Stepped(StateView),
    Endgame(int),
    Oops,
}

impl View for StepResult {
    type V = StepView;

    open spec fn view(&self) -> StepView {
        match self {
            StepResult::Stepped(s) => StepView::Stepped(s@),
            StepResult::Endgame(p) => StepView::Endgame(*p as int),
            StepResult::Oops => StepView::Oops,
        }
    }
}

/// Where a move takes the robot from `(x, y)` (abort stays put).
pub open spec fn move_target(x: int, y: int, m: Move) -> (int, int) {
    match m {
        Move::L => (x - 1, y),
        Move::R => (x + 1, y),
        Move::U => (x, y + 1),
        Move::D => (x, y - 1),
        _ => (x, y),
    }
}

/// Where the rock at `(x, y)` goes in the map update, if it moves: it falls,
/// or slides right or left off a rock, or right off a lambda.
pub open spec fn rock_target(g: Seq<Seq<Square>>, x: int, y: int) -> Option<(int, int)> {
    let below = cell(g, x, y - 1);
    if below == Square::Empty {
        Some((x, y - 1))
    } else if below == Square::Rock && cell(g, x + 1, y) == Square::Empty && cell(g, x + 1, y - 1)
        == Square::Empty {
        Some((x + 1, y - 1))
    } else if below == Square::Rock && cell(g, x - 1, y) == Square::Empty && cell(g, x - 1, y - 1)
        == Square::Empty {
        Some((x - 1, y - 1))
    } else if below == Square::Lambda && cell(g, x + 1, y) == Square::Empty && cell(
        g,
        x + 1,
        y - 1,
    ) == Square::Empty {
        Some((x + 1, y - 1))
    } else {
        None
    }
}

/// The squares that the update rule of a rock at `(x, y)` reads all lie in
/// the grid.
pub open spec fn rock_rule_defined(g: Seq<Seq<Square>>, x: int, y: int) -> bool {
    let below = cell(g, x, y - 1);
    let right_clear = cell(g, x + 1, y) == Square::Empty && cell(g, x + 1, y - 1) == Square::Empty;
    &&& inb(g, x, y - 1)
    &&& below == Square::Rock || below == Square::Lambda ==> inb(g, x + 1, y) && (cell(g, x + 1, y)
        == Square::Empty ==> inb(g, x + 1, y - 1))
    &&& below == Square::Rock && !right_clear ==> inb(g, x - 1, y) && (cell(g, x - 1, y)
        == Square::Empty ==> inb(g, x - 1, y - 1))
}

/// The rock at `q` lands on `p` in the map update.
pub open spec fn lands_on(g: Seq<Seq<Square>>, q: (int, int), p: (int, int)) -> bool {
    inb(g, q.0, q.1) && cell(g, q.0, q.1) == Square::Rock && rock_target(g, q.0, q.1) == Some(p)
}

/// Some rock lands on `p` in the map update (only the three squares above
/// `p` can hold it).
pub open spec fn placed(g: Seq<Seq<Square>>, p: (int, int)) -> bool {
    lands_on(g, (p.0, p.1 + 1), p) || lands_on(g, (p.0 - 1, p.1 + 1), p) || lands_on(
        g,
        (p.0 + 1, p.1 + 1),
        p,
    )
}

/// The rock at `p` leaves its square in the map update.
pub open spec fn moves_away(g: Seq<Seq<Square>>, p: (int, int)) -> bool {
    cell(g, p.0, p.1) == Square::Rock && rock_target(g, p.0, p.1) is Some
}

/// The square at `p` after the map update: `old` is the grid before the
/// robot moved, `moved` the grid after it, `left` the lambdas left before
/// the move.
pub open spec fn updated_cell(
    old: Seq<Seq<Square>>,
    moved: Seq<Seq<Square>>,
    left: int,
    p: (int, int),
) -> Square {
    if placed(old, p) {
        Square::Rock
    } else if moves_away(old, p) {
        Square::Empty
    } else if cell(old, p.0, p.1) == Square::LiftC && left == 0 {
        Square::LiftO
    } else {
        cell(moved, p.0, p.1)
    }
}

/// The grid after the map update.
pub open spec fn update_map(old: Seq<Seq<Square>>, moved: Seq<Seq<Square>>, left: int) -> Seq<
    Seq<Square>,
> {
    Seq::new(
        moved.len(),
        |r: int| Seq::new(moved[r].len(), |c: int| updated_cell(old, moved, left, (c + 1, r + 1))),
    )
}

/// The robot may push the rock in front of it: it moves right (left) onto a
/// rock with an empty square behind.
pub open spec fn pushes_right(g: Seq<Seq<Square>>, x: int, y: int, m: Move) -> bool {
    m == Move::R && cell(g, x + 1, y) == Square::Rock && cell(g, x + 2, y) == Square::Empty
}

pub open spec fn pushes_left(g: Seq<Seq<Square>>, x: int, y: int, m: Move) -> bool {
    m == Move::L && cell(g, x - 1, y) == Square::Rock && cell(g, x - 2, y) == Square::Empty
}

/// The robot may enter the square it moves to.
pub open spec fn enterable(g: Seq<Seq<Square>>, x: int, y: int, m: Move) -> bool {
    let t = move_target(x, y, m);
    let sq = cell(g, t.0, t.1);
    sq == Square::Empty || sq == Square::Earth || sq == Square::Bot || sq == Square::Lambda
        || pushes_right(g, x, y, m) || pushes_left(g, x, y, m)
}

/// The grid after the robot's part of a move (it ends up at `to`).
pub open spec fn grid_after_move(g: Seq<Seq<Square>>, x: int, y: int, m: Move, to: (int, int)) -> Seq<
    Seq<Square>,
> {
    let pushed = if pushes_right(g, x, y, m) {
        put(g, x + 2, y, Square::Rock)
    } else if pushes_left(g, x, y, m) {
        put(g, x - 2, y, Square::Rock)
    } else {
        g
    };
    put(put(pushed, x, y, Square::Empty), to.0, to.1, Square::Bot)
}

/// One step of the game: the robot moves, then the map updates.
pub open spec fn spec_step(s: StateView, m: Move, strict: bool) -> StepView {
    let score_ = s.score - 1;
    let (x, y) = s.robot;
    let g = s.grid;
    let t = move_target(x, y, m);
    let sq = cell(g, t.0, t.1);
    if m == Move::A {
        StepView::Endgame(score_ + s.lambdas * 25)
    } else if sq == Square::LiftO {
        StepView::Endgame(score_ + s.lambdas * 50)
    } else if !enterable(g, x, y, m) && strict {
        StepView::Oops
    } else {
        let to = if enterable(g, x, y, m) { t } else { (x, y) };
        let lambdas_ = if sq == Square::Lambda { s.lambdas + 1 } else { s.lambdas };
        let left_ = if sq == Square::Lambda { s.lambdasleft - 1 } else { s.lambdasleft };
        let g2 = update_map(g, grid_after_move(g, x, y, m, to), s.lambdasleft);
        if cell(g2, to.0, to.1) == Square::LiftO {
            StepView::Endgame(score_ + lambdas_ * 50)
        } else if placed(g, (to.0, to.1 + 1)) {
            if strict {
                StepView::Oops
            } else {
                StepView::Endgame(score_)
            }
        } else {
            StepView::Stepped(StateView { grid: g2, robot: to, lambdas: lambdas_, lambdasleft: left_, score: score_, ..s })
        }
    }
}

/// Which squares the map update has already visited: rows from the bottom,
/// each left to right; `(r, c)` is the next square to visit.
pub open spec fn visited(p: (int, int), r: int, c: int) -> bool {
    p.1 - 1 < r || (p.1 - 1 == r && p.0 - 1 < c)
}

/// A rock visited so far lands on `p`.
pub open spec fn placed_so_far(g: Seq<Seq<Square>>, p: (int, int), r: int, c: int) -> bool {
    (visited((p.0, p.1 + 1), r, c) && lands_on(g, (p.0, p.1 + 1), p)) || (visited(
        (p.0 - 1, p.1 + 1),
        r,
        c,
    ) && lands_on(g, (p.0 - 1, p.1 + 1), p)) || (visited((p.0 + 1, p.1 + 1), r, c) && lands_on(
        g,
        (p.0 + 1, p.1 + 1),
        p,
    ))
}

/// The square at `p` once the update has visited the squares before `(r, c)`.
pub open spec fn partly_updated_cell(
    old: Seq<Seq<Square>>,
    moved: Seq<Seq<Square>>,
    left: int,
    p: (int, int),
    r: int,
    c: int,
) -> Square {
    if placed_so_far(old, p, r, c) {
        Square::Rock
    } else if visited(p, r, c) && moves_away(old, p) {
        Square::Empty
    } else if visited(p, r, c) && cell(old, p.0, p.1) == Square::LiftC && left == 0 {
        Square::LiftO
    } else {
        cell(moved, p.0, p.1)
    }
}

/// The map update: every rock of `prev` that moves leaves its square and lands
/// on its target in `grid`, and closed lifts open when no lambda is left.
/// Answers whether a rock lands right above `bot`.
#[verifier::rlimit(40)]
fn update_map_into(prev: &Grid, grid: &mut Grid, left: i64, bot: Coord) -> (rocks_fall: bool)
    requires
        rect(prev@),
        old(grid)@.len() == prev@.len(),
        forall|r: int| 0 <= r < prev@.len() ==> #[trigger] old(grid)@[r].len() == prev@[r].len(),
        forall|qx: int, qy: int|
            inb(prev@, qx, qy) && #[trigger] cell(prev@, qx, qy) == Square::Rock ==> rock_rule_defined(
                prev@,
                qx,
                qy,
            ),
    ensures
        final(grid)@ == update_map(prev@, old(grid)@, left as int),
        rocks_fall == placed(prev@, (bot.0 as int, bot.1 + 1)),
{
    let ghost moved = grid@;
    let ghost g = prev@;
    let h = prev.rows.len();
    let w = prev.rows[0].len();
    let mut rocks_fall = false;
    let mut r: usize = 0;
    while r < h
        invariant
            h == g.len(),
            w == g[0].len(),
            rect(g),
            g == prev@,
            0 <= r <= h,
            grid@.len() == h,
            forall|i: int| 0 <= i < h ==> #[trigger] grid@[i].len() == w,
            moved.len() == h,
            forall|i: int| 0 <= i < h ==> #[trigger] moved[i].len() == w,
            forall|qx: int, qy: int|
                inb(g, qx, qy) && #[trigger] cell(g, qx, qy) == Square::Rock ==> rock_rule_defined(
                    g,
                    qx,
                    qy,
                ),
            forall|px: int, py: int|
                inb(g, px, py) ==> #[trigger] cell(grid@, px, py) == partly_updated_cell(
                    g,
                    moved,
                    left as int,
                    (px, py),
                    r as int,
                    0,
                ),
            rocks_fall == placed_so_far(g, (bot.0 as int, bot.1 + 1), r as int, 0),
        decreases h - r,
    {
        let mut c: usize = 0;
        while c < w
            invariant
                h == g.len(),
                w == g[0].len(),
                rect(g),
                g == prev@,
                    0 <= r < h,
                0 <= c <= w,
                grid@.len() == h,
                forall|i: int| 0 <= i < h ==> #[trigger] grid@[i].len() == w,
                moved.len() == h,
                forall|i: int| 0 <= i < h ==> #[trigger] moved[i].len() == w,
                forall|qx: int, qy: int|
                    inb(g, qx, qy) && #[trigger] cell(g, qx, qy) == Square::Rock
                        ==> rock_rule_defined(g, qx, qy),
                forall|px: int, py: int|
                    inb(g, px, py) ==> #[trigger] cell(grid@, px, py) == partly_updated_cell(
                        g,
                        moved,
                        left as int,
                        (px, py),
                        r as int,
                        c as int,
                    ),
                rocks_fall == placed_so_far(g, (bot.0 as int, bot.1 + 1), r as int, c as int),
            decreases w - c,
        {
            let sx = c + 1;
            let sy = r + 1;
            let ghost q = (sx as int, sy as int);
            assert(g[r as int].len() == w);
            let sq = prev.at((sx, sy));
            let mut target: Option<Coord> = None;
            if sq == Square::Rock {
                assert(rock_rule_defined(g, sx as int, sy as int));
                let below = prev.at((sx, sy - 1));
                if below == Square::Empty {
                    target = Some((sx, sy - 1));
                } else if below == Square::Rock && prev.at((sx + 1, sy)) == Square::Empty && prev.at(
                    (sx + 1, sy - 1),
                ) == Square::Empty {
                    target = Some((sx + 1, sy - 1));
                } else if below == Square::Rock && (prev.at((sx + 1, sy)) != Square::Empty || prev.at(
                    (sx + 1, sy - 1),
                ) != Square::Empty) && prev.at((sx - 1, sy)) == Square::Empty && prev.at(
                    (sx - 1, sy - 1),
                ) == Square::Empty {
                    target = Some((sx - 1, sy - 1));
                } else if below == Square::Lambda && prev.at((sx + 1, sy)) == Square::Empty
                    && prev.at((sx + 1, sy - 1)) == Square::Empty {
                    target = Some((sx + 1, sy - 1));
                }
                assert(target == match rock_target(g, q.0, q.1) {
                    Some(t) => Some((t.0 as usize, t.1 as usize)),
                    None => None::<Coord>,
                });
            }
            let ghost before = grid@;
            match target {
                Some(t) => {
                    if t.0 == bot.0 && t.1 >= 1 && t.1 - 1 == bot.1 {
                        rocks_fall = true;
                    }
                    grid.set(t, Square::Rock);
                    grid.set((sx, sy), Square::Empty);
                },
                None => {
                    if sq == Square::LiftC && left == 0 {
                        grid.set((sx, sy), Square::LiftO);
                    }
                },
            }
            proof {
                assert forall|px: int, py: int| inb(g, px, py) implies #[trigger] cell(
                    grid@,
                    px,
                    py,
                ) == partly_updated_cell(
                    g,
                    moved,
                    left as int,
                    (px, py),
                    r as int,
                    c + 1,
                ) by {
                    assert(cell(before, px, py) == partly_updated_cell(
                        g,
                        moved,
                        left as int,
                        (px, py),
                        r as int,
                        c as int,
                    ));
                }
            }
            c += 1;
        }
        proof {
            assert forall|px: int, py: int| inb(g, px, py) implies #[trigger] cell(grid@, px, py)
                == partly_updated_cell(g, moved, left as int, (px, py), r + 1, 0) by {
                assert(cell(grid@, px, py) == partly_updated_cell(
                    g,
                    moved,
                    left as int,
                    (px, py),
                    r as int,
                    w as int,
                ));
            }
        }
        r += 1;
    }
    proof {
        let target = update_map(g, moved, left as int);
        assert forall|i: int| 0 <= i < h implies #[trigger] grid@[i] =~= target[i] by {
            assert forall|j: int| 0 <= j < w implies grid@[i][j] == target[i][j] by {
                assert(inb(g, j + 1, i + 1));
                assert(cell(grid@, j + 1, i + 1) == partly_updated_cell(
                    g,
                    moved,
                    left as int,
                    (j + 1, i + 1),
                    h as int,
                    0,
                ));
            }
        }
        assert(grid@ =~= target);
    }
    rocks_fall
}

/// The squares that a step reads lie in the grid, and its arithmetic stays
/// in range.
pub open spec fn step_defined(s: StateView, m: Move) -> bool {
    let (x, y) = s.robot;
    let g = s.grid;
    let t = move_target(x, y, m);
    &&& i64::MIN < s.score
    &&& i64::MIN <= s.lambdas * 25 <= i64::MAX
    &&& i64::MIN <= s.score - 1 + s.lambdas * 25 <= i64::MAX
    &&& m != Move::A ==> {
        &&& i64::MIN <= s.lambdas * 50 - 50 && s.lambdas * 50 + 50 <= i64::MAX
        &&& i64::MIN < s.lambdasleft
        &&& i64::MIN <= s.score - 1 + s.lambdas * 50 <= i64::MAX
        &&& i64::MIN <= s.score - 1 + s.lambdas * 50 + 50 <= i64::MAX
        &&& rect(g)
        &&& inb(g, x, y)
        &&& inb(g, t.0, t.1)
        &&& m == Move::R && cell(g, t.0, t.1) == Square::Rock ==> inb(g, x + 2, y)
        &&& m == Move::L && cell(g, t.0, t.1) == Square::Rock ==> inb(g, x - 2, y)
        &&& forall|qx: int, qy: int|
            inb(g, qx, qy) && #[trigger] cell(g, qx, qy) == Square::Rock ==> rock_rule_defined(
                g,
                qx,
                qy,
            )
    }
}

/// A line of map characters, read as squares.
pub open spec fn line_squares(line: Seq<char>) -> Seq<Square> {
    line.map_values(|c: char| char_square(c).unwrap())
}

/// The grid that map lines (top line first) describe: bottom row first.
pub open spec fn parse_grid(ls: Seq<Seq<char>>) -> Seq<Seq<Square>> {
    Seq::new(ls.len(), |r: int| line_squares(ls[ls.len() - 1 - r]))
}

/// Line `yi` (from the top) holds the robot at column `xi` (0-based).
pub open spec fn robot_at(ls: Seq<Seq<char>>, yi: int, xi: int) -> bool {
    0 <= yi < ls.len() && 0 <= xi < ls[yi].len() && ls[yi][xi] == 'R'
}

/// Map lines that describe a mine: at least one line, all as long as the
/// first, only map characters, and exactly one robot.
pub open spec fn valid_board_lines(ls: Seq<Seq<char>>) -> bool {
    &&& ls.len() >= 1
    &&& ls[0].len() >= 1
    &&& forall|r: int| 0 <= r < ls.len() ==> #[trigger] ls[r].len() == ls[0].len()
    &&& forall|r: int, c: int|
        0 <= r < ls.len() && 0 <= c < ls[r].len() ==> (#[trigger] char_square(ls[r][c])) is Some
    &&& exists|yi: int, xi: int| robot_at(ls, yi, xi)
    &&& forall|y1: int, x1: int, y2: int, x2: int|
        robot_at(ls, y1, x1) && robot_at(ls, y2, x2) ==> y1 == y2 && x1 == x2
}

/// A board file whose map (its lines up to the first empty one) describes a
/// mine.
pub open spec fn valid_board_text(s: Seq<char>) -> bool {
    valid_board_lines(map_lines(s))
}

/// The number of lambdas on a grid.
pub open spec fn lambda_count(g: Seq<Seq<Square>>) -> nat {
    lambda_coords(coord_cells(g)).len()
}

/// The state a board file describes: the grid of its map, the robot where
/// the map shows it, every lambda of the map still to collect (as a
/// machine integer), and every other figure zero.
pub open spec fn board_view(s: Seq<char>) -> StateView {
    let ls = map_lines(s);
    let (yi, xi) = choose|yi: int, xi: int| robot_at(ls, yi, xi);
    StateView {
        flooding: 0,
        waterproof: 0,
        grid: parse_grid(ls),
        robot: (xi + 1, ls.len() - yi),
        water: 0,
        nextflood: 0,
        underwater: 0,
        lambdas: 0,
        lambdasleft: (lambda_count(parse_grid(ls)) as i64) as int,
        score: 0,
    }
}

/// Reads the map at the head of a board file: its lines up to the first
/// empty line, top line first. The robot's position comes from the map,
/// and so do the lambdas left to collect: all those on the map. The other
/// figures of the state start at zero.
pub fn read_board(input: &str) -> (st: State)
    requires
        valid_board_text(input@),
    ensures
        st.grid@ == parse_grid(map_lines(input@)),
        rect(st.grid@),
        inb(st.grid@, st.robotpos.0 as int, st.robotpos.1 as int),
        cell(st.grid@, st.robotpos.0 as int, st.robotpos.1 as int) == Square::Bot,
        robot_at(
            map_lines(input@),
            map_lines(input@).len() - st.robotpos.1,
            st.robotpos.0 - 1,
        ),
        st.flooding == 0 && st.waterproof == 0 && st.water == 0 && st.nextflood == 0,
        st.underwater == 0 && st.lambdas == 0 && st.score == 0,
        st.lambdasleft == lambda_count(st.grid@) as i64,
        st@ == board_view(input@),
{
    let cs = chars_of(input);
    let n = cs.len();
    let ghost ls = map_lines(cs@);
    let mut top: Vec<Vec<Square>> = Vec::new();
    let ghost mut done: Seq<Seq<char>> = Seq::empty();
    let mut robot: Option<(usize, usize)> = None;
    let mut i: usize = 0;
    proof {
        assert(cs@.skip(0) =~= cs@);
    }
    loop
        invariant_except_break
            ls == done + map_lines(cs@.skip(i as int)),
        invariant
            n == cs@.len(),
            i <= n,
            ls == map_lines(cs@),
            valid_board_lines(ls),
            top@.len() == done.len(),
            forall|r: int| 0 <= r < done.len() ==> #[trigger] top@[r]@ == line_squares(done[r]),
            robot is Some <==> exists|yi: int, xi: int| robot_at(done, yi, xi),
            robot matches Some(p) ==> robot_at(done, p.1 as int, p.0 - 1),
        ensures
            done == ls,
        decreases n - i,
    {
        if i >= n {
            proof {
                assert(cs@.skip(i as int) =~= Seq::<char>::empty());
            }
            break;
        }
        let start = i;
        let ghost rest = cs@.skip(start as int);
        let ghost k = nl_index(rest);
        proof {
            lemma_nl_index_bound(rest);
        }
        let mut row: Vec<Square> = Vec::new();
        while i < n && cs[i] != '\n'
            invariant
                n == cs@.len(),
                start <= i <= n,
                start < n,
                rest == cs@.skip(start as int),
                k == nl_index(rest),
                k <= rest.len(),
                k < rest.len() ==> rest[k as int] == '\n',
                ls == map_lines(cs@),
                valid_board_lines(ls),
                ls == done + map_lines(rest),
                forall|t: int| start <= t < i ==> cs@[t] != '\n',
                i - start <= nl_index(rest),
                row@.len() == i - start,
                i > start ==> row@ == line_squares(rest.take(nl_index(rest) as int)).take(
                    i - start,
                ),
                top@.len() == done.len(),
                robot is Some <==> (exists|yi: int, xi: int| robot_at(done, yi, xi)) || (exists|t: int|
                    start <= t < i && #[trigger] cs@[t] == 'R'),
                robot matches Some(p) ==> (robot_at(done, p.1 as int, p.0 - 1) || (p.1
                    == done.len() && 1 <= p.0 <= i - start && cs@[start + p.0 - 1] == 'R')),
            decreases n - i,
        {
            proof {
                assert(rest[i - start] == cs@[i as int]);
                assert(i - start < k);
                let line = rest.take(k as int);
                assert(map_lines(rest)[0] == line);
                assert(ls[done.len() as int] == line);
                assert(line[i - start] == cs@[i as int]);
                assert(char_square(ls[done.len() as int][i - start]) is Some);
            }
            let c = cs[i];
            let sq = square_from_char(c);
            if c == 'R' {
                proof {
                    assert(robot_at(ls, done.len() as int, i - start));
                }
                match robot {
                    None => {
                        robot = Some((i - start + 1, top.len()));
                    },
                    Some(p) => {
                        proof {
                            if robot_at(done, p.1 as int, p.0 - 1) {
                                assert(ls[p.1 as int] == done[p.1 as int]);
                                assert(robot_at(ls, p.1 as int, p.0 - 1));
                            } else {
                                assert(cs@[start + p.0 - 1] == rest[p.0 - 1]);
                                assert(robot_at(ls, done.len() as int, p.0 - 1));
                            }
                        }
                    },
                }
            }
            row.push(sq);
            i += 1;
        }
        proof {
            lemma_nl_index(rest, (i - start) as nat);
        }
        if i == start {
            break;
        }
        proof {
            assert(forall|t: int| 0 <= t < row@.len() ==> row@[t] == line_squares(
                rest.take(nl_index(rest) as int),
            )[t]);
        }
        top.push(row);
        proof {
            assert(row@ =~= line_squares(rest.take(k as int)));
            let line = rest.take(k as int);
            let ghost old_done = done;
            done = done.push(line);
            assert forall|yi: int, xi: int| robot_at(old_done, yi, xi) implies robot_at(done, yi, xi) by {
                assert(done[yi] == old_done[yi]);
            }
            assert forall|t: int| start <= t < i && #[trigger] cs@[t] == 'R' implies robot_at(done, old_done.len() as int, t - start) by {
                assert(line[t - start] == cs@[t]);
            }
            assert forall|yi: int, xi: int| robot_at(done, yi, xi) implies robot_at(old_done, yi, xi) || (yi == old_done.len() && cs@[start + xi] == 'R' && start <= start + xi < i) by {
                if yi < old_done.len() {
                    assert(done[yi] == old_done[yi]);
                } else {
                    assert(line[xi] == cs@[start + xi]);
                }
            }
            if let Some(p) = robot {
                if !robot_at(old_done, p.1 as int, p.0 - 1) {
                    assert(line[p.0 - 1] == cs@[start + p.0 - 1]);
                    assert(robot_at(done, p.1 as int, p.0 - 1));
                } else {
                    assert(robot_at(done, p.1 as int, p.0 - 1));
                }
            }
            assert(k == i - start);
            if i < n {
                assert(rest.skip((k + 1) as int) =~= cs@.skip(i + 1));
                assert(map_lines(rest) == seq![line] + map_lines(rest.skip((k + 1) as int)));
                assert(ls =~= done + map_lines(cs@.skip(i + 1)));
            } else {
                assert(cs@.skip(i as int) =~= Seq::<char>::empty());
                assert(rest.take(k as int) =~= rest);
                assert(map_lines(rest) == seq![line]);
                assert(ls =~= done + map_lines(cs@.skip(i as int)));
            }
        }
        if i < n {
            i += 1;
        }
    }
    let h = top.len();
    let mut grid = Grid { rows: Vec::new() };
    while top.len() > 0
        invariant
            h == done.len(),
            top@.len() <= h,
            grid.rows@.len() == h - top@.len(),
            forall|r: int| 0 <= r < top@.len() ==> #[trigger] top@[r]@ == line_squares(done[r]),
            forall|r: int|
                0 <= r < grid.rows@.len() ==> #[trigger] grid.rows@[r]@ == line_squares(
                    done[h - 1 - r],
                ),
        decreases top.len(),
    {
        let row = top.pop().unwrap();
        grid.rows.push(row);
    }
    proof {
        assert(grid@ =~= parse_grid(ls));
    }
    let (x, yi) = robot.unwrap();
    proof {
        lemma_parse_grid(ls, yi as int, x - 1);
    }
    let left = grid.lambdas().len() as i64;
    let st = State {
        flooding: 0,
        waterproof: 0,
        grid,
        robotpos: (x, h - yi),
        water: 0,
        nextflood: 0,
        underwater: 0,
        lambdas: 0,
        lambdasleft: left,
        score: 0,
    };
    proof {
        let (y2, x2) = choose|y2: int, x2: int| robot_at(ls, y2, x2);
        assert(robot_at(ls, y2, x2));
        assert(robot_at(ls, ls.len() - st.robotpos.1, st.robotpos.0 - 1));
        assert(st@ == board_view(input@));
    }
    st
}

/// Whether the map at the head of a board file describes a mine that
/// `read_board` accepts.
pub fn board_text_valid(input: &str) -> (b: bool)
    ensures
        b == valid_board_text(input@),
{
    let cs = chars_of(input);
    let n = cs.len();
    let ghost ls = map_lines(cs@);
    let ghost mut done: Seq<Seq<char>> = Seq::empty();
    let mut lines: usize = 0;
    let mut width: usize = 0;
    let mut robot: Option<(usize, usize)> = None;
    let mut i: usize = 0;
    proof {
        assert(cs@.skip(0) =~= cs@);
    }
    loop
        invariant_except_break
            ls == done + map_lines(cs@.skip(i as int)),
        invariant
            n == cs@.len(),
            cs@ == input@,
            i <= n,
            ls == map_lines(cs@),
            lines == done.len(),
            lines <= i,
            lines > 0 ==> width == done[0].len(),
            forall|r: int| 0 <= r < done.len() ==> #[trigger] done[r].len() == width,
            forall|r: int, c: int|
                0 <= r < done.len() && 0 <= c < done[r].len() ==> (#[trigger] char_square(
                    done[r][c],
                )) is Some,
            robot is Some <==> exists|yi: int, xi: int| robot_at(done, yi, xi),
            robot matches Some(p) ==> robot_at(done, p.1 as int, p.0 - 1),
            forall|y1: int, x1: int, y2: int, x2: int|
                robot_at(done, y1, x1) && robot_at(done, y2, x2) ==> y1 == y2 && x1 == x2,
        ensures
            done == ls,
        decreases n - i,
    {
        if i >= n {
            proof {
                assert(cs@.skip(i as int) =~= Seq::<char>::empty());
            }
            break;
        }
        let start = i;
        let ghost rest = cs@.skip(start as int);
        let ghost k = nl_index(rest);
        proof {
            lemma_nl_index_bound(rest);
        }
        while i < n && cs[i] != '\n'
            invariant
                n == cs@.len(),
                cs@ == input@,
                lines == done.len(),
                lines > 0 ==> width == done[0].len(),
                forall|r: int| 0 <= r < done.len() ==> #[trigger] done[r].len() == width,
                forall|r: int, c: int|
                    0 <= r < done.len() && 0 <= c < done[r].len() ==> (#[trigger] char_square(
                        done[r][c],
                    )) is Some,
                start <= i <= n,
                start < n,
                rest == cs@.skip(start as int),
                k == nl_index(rest),
                k <= rest.len(),
                k < rest.len() ==> rest[k as int] == '\n',
                ls == map_lines(cs@),
                ls == done + map_lines(rest),
                forall|t: int| start <= t < i ==> cs@[t] != '\n',
                forall|t: int| start <= t < i ==> (#[trigger] char_square(cs@[t])) is Some,
                i - start <= k,
                robot is Some <==> (exists|yi: int, xi: int| robot_at(done, yi, xi)) || (exists|t: int|
                    start <= t < i && #[trigger] cs@[t] == 'R'),
                robot matches Some(p) ==> (robot_at(done, p.1 as int, p.0 - 1) || (p.1
                    == done.len() && 1 <= p.0 <= i - start && cs@[start + p.0 - 1] == 'R')),
                forall|y1: int, x1: int, y2: int, x2: int|
                    robot_at(done, y1, x1) && robot_at(done, y2, x2) ==> y1 == y2 && x1 == x2,
                forall|t1: int, t2: int|
                    start <= t1 < i && start <= t2 < i && cs@[t1] == 'R' && cs@[t2] == 'R' ==> t1
                        == t2,
                (exists|yi: int, xi: int| robot_at(done, yi, xi)) ==> forall|t: int|
                    start <= t < i ==> #[trigger] cs@[t] != 'R',
            decreases n - i,
        {
            proof {
                assert(rest[i - start] == cs@[i as int]);
                assert(i - start < k);
                let line = rest.take(k as int);
                assert(map_lines(rest)[0] == line);
                assert(ls[done.len() as int] == line);
                assert(line[i - start] == cs@[i as int]);
            }
            let c = cs[i];
            if !(c == 'R' || c == '#' || c == '*' || c == '\\' || c == 'L' || c == 'O' || c == '.'
                || c == ' ') {
                proof {
                    assert(char_square(ls[done.len() as int][i - start]) is None);
                    assert(!valid_board_lines(ls));
                }
                return false;
            }
            if c == 'R' {
                match robot {
                    None => {
                        robot = Some((i - start + 1, lines));
                        proof {
                            assert(cs@[start + (i - start + 1) - 1] == 'R');
                        }
                    },
                    Some(p) => {
                        proof {
                            assert(robot_at(ls, done.len() as int, i - start));
                            if robot_at(done, p.1 as int, p.0 - 1) {
                                assert(ls[p.1 as int] == done[p.1 as int]);
                                assert(robot_at(ls, p.1 as int, p.0 - 1));
                            } else {
                                assert(cs@[start + p.0 - 1] == rest[p.0 - 1]);
                                assert(robot_at(ls, done.len() as int, p.0 - 1));
                            }
                        }
                        return false;
                    },
                }
            }
            i += 1;
        }
        proof {
            lemma_nl_index(rest, (i - start) as nat);
        }
        if i == start {
            proof {
                assert(map_lines(rest) =~= Seq::<Seq<char>>::empty());
                assert(ls =~= done);
            }
            break;
        }
        let len = i - start;
        if lines > 0 && len != width {
            proof {
                assert(ls[done.len() as int] == rest.take(k as int));
                assert(ls[0] == done[0]);
                assert(ls[done.len() as int].len() != ls[0].len());
                assert(!valid_board_lines(ls));
            }
            return false;
        }
        proof {
            let line = rest.take(k as int);
            assert(ls[done.len() as int] == line);
            let ghost old_done = done;
            done = done.push(line);
            assert forall|yi: int, xi: int| robot_at(old_done, yi, xi) implies robot_at(done, yi, xi) by {
                assert(done[yi] == old_done[yi]);
            }
            assert forall|t: int| start <= t < i && #[trigger] cs@[t] == 'R' implies robot_at(done, old_done.len() as int, t - start) by {
                assert(line[t - start] == cs@[t]);
            }
            assert forall|yi: int, xi: int| robot_at(done, yi, xi) implies robot_at(old_done, yi, xi) || (yi == old_done.len() && cs@[start + xi] == 'R' && start <= start + xi < i) by {
                if yi < old_done.len() {
                    assert(done[yi] == old_done[yi]);
                } else {
                    assert(line[xi] == cs@[start + xi]);
                }
            }
            assert forall|r: int, c: int|
                0 <= r < done.len() && 0 <= c < done[r].len() implies (#[trigger] char_square(
                    done[r][c],
                )) is Some by {
                if r < old_done.len() {
                    assert(done[r] == old_done[r]);
                } else {
                    assert(line[c] == cs@[start + c]);
                }
            }
            if let Some(p) = robot {
                if !robot_at(old_done, p.1 as int, p.0 - 1) {
                    assert(line[p.0 - 1] == cs@[start + p.0 - 1]);
                    assert(robot_at(done, p.1 as int, p.0 - 1));
                } else {
                    assert(robot_at(done, p.1 as int, p.0 - 1));
                }
            }
            assert forall|y1: int, x1: int, y2: int, x2: int|
                robot_at(done, y1, x1) && robot_at(done, y2, x2) implies y1 == y2 && x1 == x2 by {
                if y1 < old_done.len() && y2 < old_done.len() {
                    assert(robot_at(old_done, y1, x1));
                    assert(robot_at(old_done, y2, x2));
                } else if y1 < old_done.len() {
                    assert(robot_at(old_done, y1, x1));
                    assert(cs@[start + x2] == 'R');
                } else if y2 < old_done.len() {
                    assert(robot_at(old_done, y2, x2));
                    assert(cs@[start + x1] == 'R');
                } else {
                    assert(cs@[start + x1] == 'R');
                    assert(cs@[start + x2] == 'R');
                }
            }
            assert(k == i - start);
            if i < n {
                assert(rest.skip((k + 1) as int) =~= cs@.skip(i + 1));
                assert(map_lines(rest) == seq![line] + map_lines(rest.skip((k + 1) as int)));
                assert(ls =~= done + map_lines(cs@.skip(i + 1)));
            } else {
                assert(cs@.skip(i as int) =~= Seq::<char>::empty());
                assert(rest.take(k as int) =~= rest);
                assert(map_lines(rest) == seq![line]);
                assert(ls =~= done + map_lines(cs@.skip(i as int)));
            }
        }
        if lines == 0 {
            width = len;
        }
        lines = lines + 1;
        if i < n {
            i += 1;
        }
    }
    lines > 0 && width > 0 && robot.is_some()
}

/// Map text for rows given top row first: each row's characters, then a
/// newline.
pub open spec fn render_rows(rows: Seq<Seq<Square>>) -> Seq<char>
    decreases rows.len(),
{
    if rows.len() == 0 {
        Seq::empty()
    } else {
        render_rows(rows.drop_last()) + rows.last().map_values(|s: Square| square_char(s)) + seq![
            '\n',
        ]
    }
}

/// The rows of a grid, top row first.
pub open spec fn top_first(g: Seq<Seq<Square>>) -> Seq<Seq<Square>> {
    Seq::new(g.len(), |i: int| g[g.len() - 1 - i])
}

/// Map text for a grid: its rows top to bottom, each ended by a newline.
pub open spec fn render(g: Seq<Seq<Square>>) -> Seq<char> {
    render_rows(top_first(g))
}

/// Lines joined into text, each ended by a newline.
pub open spec fn join_lines(ls: Seq<Seq<char>>) -> Seq<char>
    decreases ls.len(),
{
    if ls.len() == 0 {
        Seq::empty()
    } else {
        join_lines(ls.drop_last()) + ls.last() + seq!['\n']
    }
}

impl Grid {
    /// The grid as map text: rows top to bottom, each ended by a newline.
    pub fn to_str(&self) -> (s: String)
        ensures
            s@ == render(self@),
    {
        let ghost g = self@;
        let ghost tf = top_first(g);
        let h = self.rows.len();
        let mut s = String::new();
        let mut k: usize = 0;
        proof {
            assert(tf.take(0) =~= Seq::<Seq<Square>>::empty());
        }
        while k < h
            invariant
                h == g.len(),
                g == self@,
                tf == top_first(g),
                k <= h,
                s@ == render_rows(tf.take(k as int)),
            decreases h - k,
        {
            let row = &self.rows[h - 1 - k];
            let ghost before = s@;
            let mut c: usize = 0;
            while c < row.len()
                invariant
                    c <= row@.len(),
                    s@ == before + row@.take(c as int).map_values(|q: Square| square_char(q)),
                decreases row.len() - c,
            {
                s.append(row[c].to_str());
                proof {
                    assert(row@.take(c + 1).map_values(|q: Square| square_char(q)) =~= row@.take(
                        c as int,
                    ).map_values(|q: Square| square_char(q)).push(square_char(row@[c as int])));
                }
                c += 1;
            }
            proof {
                reveal_strlit("\n");
            }
            s.append("\n");
            proof {
                assert(row@.take(c as int) =~= row@);
                assert(row@ == tf[k as int]);
                assert(tf.take(k + 1).drop_last() =~= tf.take(k as int));
                assert(tf.take(k + 1).last() == tf[k as int]);
            }
            k += 1;
        }
        proof {
            assert(tf.take(h as int) =~= tf);
        }
        s
    }
}

/// A board read from valid lines has a rectangular grid, with the robot on
/// its square.
pub proof fn lemma_parse_grid(ls: Seq<Seq<char>>, yi: int, xi: int)
    requires
        valid_board_lines(ls),
        robot_at(ls, yi, xi),
    ensures
        rect(parse_grid(ls)),
        inb(parse_grid(ls), xi + 1, ls.len() - yi),
        cell(parse_grid(ls), xi + 1, ls.len() - yi) == Square::Bot,
{
    let g = parse_grid(ls);
    assert forall|r: int| 0 <= r < g.len() implies #[trigger] g[r].len() == g[0].len() by {
        assert(ls[ls.len() - 1 - r].len() == ls[0].len());
        assert(ls[ls.len() - 1].len() == ls[0].len());
    }
    assert(ls[ls.len() - 1].len() == ls[0].len());
}

proof fn lemma_join_front(ls: Seq<Seq<char>>)
    requires
        ls.len() >= 1,
    ensures
        join_lines(ls) == ls[0] + seq!['\n'] + join_lines(ls.drop_first()),
    decreases ls.len(),
{
    if ls.len() > 1 {
        lemma_join_front(ls.drop_last());
        assert(ls.drop_last().drop_first() =~= ls.drop_first().drop_last());
        assert(ls.drop_last()[0] == ls[0]);
        assert(ls.drop_first().last() == ls.last());
        assert(join_lines(ls.drop_first()) == join_lines(ls.drop_first().drop_last())
            + ls.drop_first().last() + seq!['\n']);
        assert(join_lines(ls) =~= ls[0] + seq!['\n'] + join_lines(ls.drop_first()));
    } else {
        assert(ls.drop_last() =~= Seq::<Seq<char>>::empty());
        assert(ls.drop_first() =~= Seq::<Seq<char>>::empty());
        assert(join_lines(ls) =~= ls[0] + seq!['\n'] + join_lines(ls.drop_first()));
    }
}

proof fn lemma_map_lines_join(ls: Seq<Seq<char>>)
    requires
        forall|i: int| 0 <= i < ls.len() ==> (#[trigger] ls[i]).len() >= 1,
        forall|i: int, j: int| 0 <= i < ls.len() && 0 <= j < ls[i].len() ==> #[trigger] ls[i][j] != '\n',
    ensures
        map_lines(join_lines(ls)) == ls,
    decreases ls.len(),
{
    if ls.len() == 0 {
        assert(join_lines(ls) =~= Seq::<char>::empty());
        assert(map_lines(join_lines(ls)) =~= ls);
    } else {
        let t = join_lines(ls);
        let rest = ls.drop_first();
        lemma_join_front(ls);
        assert(forall|i: int| 0 <= i < rest.len() ==> rest[i] == ls[i + 1]);
        lemma_map_lines_join(rest);
        let k = ls[0].len();
        assert forall|q: int| 0 <= q < k implies t[q] != '\n' by {
            assert(t[q] == ls[0][q]);
        }
        assert(t[k as int] == '\n');
        lemma_nl_index(t, k);
        assert(t.take(k as int) =~= ls[0]);
        assert(t.skip((k + 1) as int) =~= join_lines(rest));
        assert(map_lines(t) == seq![t.take(k as int)] + map_lines(t.skip((k + 1) as int)));
        assert(map_lines(t) =~= ls);
    }
}

proof fn lemma_render_lines(ls: Seq<Seq<char>>)
    requires
        forall|i: int, j: int|
            0 <= i < ls.len() && 0 <= j < ls[i].len() ==> (#[trigger] char_square(ls[i][j])) is Some,
    ensures
        render_rows(ls.map_values(|l: Seq<char>| line_squares(l))) == join_lines(ls),
    decreases ls.len(),
{
    let rows = ls.map_values(|l: Seq<char>| line_squares(l));
    if ls.len() == 0 {
        assert(render_rows(rows) =~= join_lines(ls));
    } else {
        let init = ls.drop_last();
        assert forall|i: int, j: int|
            0 <= i < init.len() && 0 <= j < init[i].len() implies (#[trigger] char_square(
            init[i][j],
        )) is Some by {
            assert(init[i] == ls[i]);
        }
        lemma_render_lines(init);
        assert(rows.drop_last() =~= init.map_values(|l: Seq<char>| line_squares(l)));
        let last = ls.last();
        assert forall|j: int| 0 <= j < last.len() implies square_char(
            char_square(last[j]).unwrap(),
        ) == last[j] by {
            assert(char_square(ls[ls.len() - 1][j]) is Some);
        }
        assert(rows.last().map_values(|q: Square| square_char(q)) =~= last);
    }
}

/// Reading back text made of valid map lines gives those lines, and printing
/// the grid they describe gives back the text: `read_board` and
/// `Grid::to_str` undo each other on such text.
pub proof fn law_print_read(ls: Seq<Seq<char>>)
    requires
        valid_board_lines(ls),
    ensures
        map_lines(join_lines(ls)) == ls,
        render(parse_grid(ls)) == join_lines(ls),
{
    assert forall|i: int| 0 <= i < ls.len() implies (#[trigger] ls[i]).len() >= 1 by {
        assert(ls[i].len() == ls[0].len());
    }
    assert forall|i: int, j: int| 0 <= i < ls.len() && 0 <= j < ls[i].len() implies #[trigger] ls[i][j]
        != '\n' by {
        assert(char_square(ls[i][j]) is Some);
    }
    lemma_map_lines_join(ls);
    lemma_render_lines(ls);
    assert(top_first(parse_grid(ls)) =~= ls.map_values(|l: Seq<char>| line_squares(l)));
}

/// The squares of a grid with their coordinates, row by row from the bottom,
/// each row left to right (the order of the map update).
pub open spec fn indexed_rows(g: Seq<Seq<Square>>) -> Seq<Seq<(Square, (int, int))>> {
    Seq::new(g.len(), |r: int| Seq::new(g[r].len(), |c: int| (g[r][c], (c + 1, r + 1))))
}

pub open spec fn cell_list(g: Seq<Seq<Square>>) -> Seq<(Square, (int, int))> {
    indexed_rows(g).flatten_alt()
}

/// The coordinates of the lambdas among `cells`, in order.
pub open spec fn lambda_coords(cells: Seq<(Square, Coord)>) -> Seq<Coord>
    decreases cells.len(),
{
    if cells.len() == 0 {
        Seq::empty()
    } else if cells.last().0 == Square::Lambda {
        lambda_coords(cells.drop_last()).push(cells.last().1)
    } else {
        lambda_coords(cells.drop_last())
    }
}

proof fn lemma_lambda_coords_push(cells: Seq<(Square, Coord)>, e: (Square, Coord))
    ensures
        lambda_coords(cells.push(e)) == if e.0 == Square::Lambda {
            lambda_coords(cells).push(e.1)
        } else {
            lambda_coords(cells)
        },
{
    assert(cells.push(e).drop_last() =~= cells);
}

proof fn lemma_lambda_coords_add(a: Seq<(Square, Coord)>, b: Seq<(Square, Coord)>)
    ensures
        lambda_coords(a + b) == lambda_coords(a) + lambda_coords(b),
    decreases b.len(),
{
    if b.len() == 0 {
        assert(a + b =~= a);
        assert(lambda_coords(a) + lambda_coords(b) =~= lambda_coords(a));
    } else {
        lemma_lambda_coords_add(a, b.drop_last());
        assert((a + b).drop_last() =~= a + b.drop_last());
        assert((a + b).last() == b.last());
        if b.last().0 == Square::Lambda {
            assert(lambda_coords(a) + lambda_coords(b.drop_last()).push(b.last().1) =~= (lambda_coords(a)
                + lambda_coords(b.drop_last())).push(b.last().1));
        }
    }
}

/// The lambdas of one row, cell `j` of which is at column `j + 1` of row
/// `y`, lie on row `y`, left to right.
proof fn lemma_row_lambdas(cells: Seq<(Square, Coord)>, y: usize)
    requires
        cells.len() <= usize::MAX,
        forall|j: int| 0 <= j < cells.len() ==> (#[trigger] cells[j]).1 == ((j + 1) as usize, y),
    ensures
        forall|i: int| 0 <= i < lambda_coords(cells).len() ==> (#[trigger] lambda_coords(cells)[i]).1 == y
            && 1 <= lambda_coords(cells)[i].0 <= cells.len(),
        forall|i: int, k: int|
            0 <= i < k < lambda_coords(cells).len() ==> (#[trigger] lambda_coords(cells)[i]).0
                < (#[trigger] lambda_coords(cells)[k]).0,
    decreases cells.len(),
{
    if cells.len() > 0 {
        let init = cells.drop_last();
        assert forall|j: int| 0 <= j < init.len() implies (#[trigger] init[j]).1 == ((j + 1) as usize, y) by {
            assert(init[j] == cells[j]);
        }
        lemma_row_lambdas(init, y);
        assert(cells =~= init.push(cells.last()));
        lemma_lambda_coords_push(init, cells.last());
        assert(cells.last() == cells[cells.len() - 1]);
    }
}

/// The coordinates of the lambdas of a grid's first `k` rows.
spec fn rows_lambdas(g: Seq<Seq<Square>>, k: int) -> Seq<Coord> {
    lambda_coords(
        indexed_rows(g).take(k).flatten_alt().map_values(
            |e: (Square, (int, int))| (e.0, (e.1.0 as usize, e.1.1 as usize)),
        ),
    )
}

proof fn lemma_rows_lambdas(g: Seq<Seq<Square>>, k: int)
    requires
        0 <= k <= g.len(),
        g.len() <= usize::MAX,
        forall|r: int| 0 <= r < g.len() ==> #[trigger] g[r].len() <= usize::MAX,
    ensures
        rows_lambdas(g, k).no_duplicates(),
        forall|i: int| 0 <= i < rows_lambdas(g, k).len() ==> 1 <= (#[trigger] rows_lambdas(g, k)[i]).1 <= k,
    decreases k,
{
    let conv = |e: (Square, (int, int))| (e.0, (e.1.0 as usize, e.1.1 as usize));
    let ir = indexed_rows(g);
    if k == 0 {
        assert(ir.take(0).flatten_alt() =~= Seq::<(Square, (int, int))>::empty());
        assert(rows_lambdas(g, 0) =~= Seq::<Coord>::empty());
    } else {
        lemma_rows_lambdas(g, k - 1);
        let front = ir.take(k - 1).flatten_alt().map_values(conv);
        let row = ir[k - 1].map_values(conv);
        assert(ir.take(k).drop_last() =~= ir.take(k - 1));
        assert(ir.take(k).last() == ir[k - 1]);
        assert(ir.take(k).flatten_alt() == ir.take(k - 1).flatten_alt() + ir[k - 1]);
        assert(ir.take(k).flatten_alt().map_values(conv) =~= front + row);
        lemma_lambda_coords_add(front, row);
        let y = k as usize;
        assert forall|j: int| 0 <= j < row.len() implies (#[trigger] row[j]).1 == ((j + 1) as usize, y) by {
            assert(ir[k - 1][j] == (g[k - 1][j], (j + 1, k)));
        }
        lemma_row_lambdas(row, y);
        let a = rows_lambdas(g, k - 1);
        let b = lambda_coords(row);
        let all = rows_lambdas(g, k);
        assert(all == a + b);
        assert forall|i: int| 0 <= i < all.len() implies 1 <= (#[trigger] all[i]).1 <= k by {
            if i >= a.len() {
                assert(all[i] == b[i - a.len()]);
            } else {
                assert(all[i] == a[i]);
            }
        }
        assert forall|i: int, j: int| 0 <= i < all.len() && 0 <= j < all.len() && i != j implies all[i] != all[j] by {
            if i < a.len() && j < a.len() {
                assert(all[i] == a[i] && all[j] == a[j]);
            } else if i >= a.len() && j >= a.len() {
                assert(all[i] == b[i - a.len()] && all[j] == b[j - a.len()]);
                if i < j {
                    assert(b[i - a.len()].0 < b[j - a.len()].0);
                } else {
                    assert(b[j - a.len()].0 < b[i - a.len()].0);
                }
            } else if i < a.len() {
                assert(all[i] == a[i] && all[j] == b[j - a.len()]);
                assert(a[i].1 <= k - 1);
            } else {
                assert(all[j] == a[j] && all[i] == b[i - a.len()]);
                assert(a[j].1 <= k - 1);
            }
        }
    }
}

/// The lambdas of a grid are listed once each.
pub proof fn lemma_lambdas_distinct(g: Seq<Seq<Square>>)
    requires
        g.len() <= usize::MAX,
        forall|r: int| 0 <= r < g.len() ==> #[trigger] g[r].len() <= usize::MAX,
    ensures
        lambda_coords(coord_cells(g)).no_duplicates(),
{
    lemma_rows_lambdas(g, g.len() as int);
    assert(indexed_rows(g).take(g.len() as int) =~= indexed_rows(g));
    assert(rows_lambdas(g, g.len() as int) == lambda_coords(coord_cells(g)));
}

/// Folding `f` over `items` from `acc` may end in `res`.
pub open spec fn folds_to<T, F: Fn(T, Square, Coord) -> T>(
    f: F,
    acc: T,
    items: Seq<(Square, Coord)>,
    res: T,
) -> bool
    decreases items.len(),
{
    if items.len() == 0 {
        res == acc
    } else {
        exists|mid: T|
            #[trigger] f.ensures((acc, items[0].0, items[0].1), mid) && folds_to(
                f,
                mid,
                items.drop_first(),
                res,
            )
    }
}

/// The squares with their coordinates, as exec coordinates.
pub open spec fn coord_cells(g: Seq<Seq<Square>>) -> Seq<(Square, Coord)> {
    cell_list(g).map_values(|e: (Square, (int, int))| (e.0, (e.1.0 as usize, e.1.1 as usize)))
}

impl Grid {
    /// Whether `c` names a square of the grid.
    pub fn contains(&self, c: Coord) -> (b: bool)
        ensures
            b == (c.0 > 0 && c.1 > 0 && c.1 <= self@.len() && self@.len() > 0 && c.0
                <= self@[0].len()),
            rect(self@) ==> (b == inb(self@, c.0 as int, c.1 as int)),
    {
        let (x, y) = c;
        x > 0 && y > 0 && y <= self.rows.len() && x <= self.rows[0].len()
    }

    /// The squares with their coordinates, row by row from the bottom, each
    /// row left to right.
    pub fn squares_i(&self) -> (v: Vec<(Square, Coord)>)
        ensures
            v@ == coord_cells(self@),
    {
        let ghost g = self@;
        let ghost ir = indexed_rows(g);
        proof {
            self.lemma_lens_fit();
        }
        let mut v: Vec<(Square, Coord)> = Vec::new();
        let mut r: usize = 0;
        proof {
            assert(ir.take(0) =~= Seq::<Seq<(Square, (int, int))>>::empty());
        }
        while r < self.rows.len()
            invariant
                g == self@,
                ir == indexed_rows(g),
                r <= g.len(),
                forall|i: int| 0 <= i < g.len() ==> #[trigger] g[i].len() <= usize::MAX,
                g.len() <= usize::MAX,
                v@ == ir.take(r as int).flatten_alt().map_values(
                    |e: (Square, (int, int))| (e.0, (e.1.0 as usize, e.1.1 as usize)),
                ),
            decreases g.len() - r,
        {
            let row = &self.rows[r];
            let ghost before = v@;
            let mut c: usize = 0;
            while c < row.len()
                invariant
                    row@ == g[r as int],
                    r < g.len(),
                    g.len() <= usize::MAX,
                    c <= row@.len(),
                    ir == indexed_rows(g),
                    v@ == before + ir[r as int].take(c as int).map_values(
                        |e: (Square, (int, int))| (e.0, (e.1.0 as usize, e.1.1 as usize)),
                    ),
                decreases row.len() - c,
            {
                v.push((row[c], (c + 1, r + 1)));
                proof {
                    assert(ir[r as int].take(c + 1) =~= ir[r as int].take(c as int).push(
                        ir[r as int][c as int],
                    ));
                    assert(v@ =~= before + ir[r as int].take(c + 1).map_values(
                        |e: (Square, (int, int))| (e.0, (e.1.0 as usize, e.1.1 as usize)),
                    ));
                }
                c += 1;
            }
            proof {
                assert(ir[r as int].take(c as int) =~= ir[r as int]);
                assert(ir.take(r + 1).drop_last() =~= ir.take(r as int));
                assert(ir.take(r + 1).last() == ir[r as int]);
                assert(v@ =~= ir.take(r + 1).flatten_alt().map_values(
                    |e: (Square, (int, int))| (e.0, (e.1.0 as usize, e.1.1 as usize)),
                ));
            }
            r += 1;
        }
        proof {
            assert(ir.take(r as int) =~= ir);
        }
        v
    }

    /// The squares, row by row from the bottom, each row left to right.
    pub fn squares(&self) -> (v: Vec<Square>)
        ensures
            v@ == cell_list(self@).map_values(|e: (Square, (int, int))| e.0),
    {
        let all = self.squares_i();
        let mut v: Vec<Square> = Vec::new();
        let mut i: usize = 0;
        while i < all.len()
            invariant
                i <= all@.len(),
                all@ == coord_cells(self@),
                v@ == all@.take(i as int).map_values(|e: (Square, Coord)| e.0),
            decreases all.len() - i,
        {
            v.push(all[i].0);
            proof {
                assert(all@.take(i + 1) =~= all@.take(i as int).push(all@[i as int]));
                assert(v@ =~= all@.take(i + 1).map_values(|e: (Square, Coord)| e.0));
            }
            i += 1;
        }
        proof {
            assert(all@.take(i as int) =~= all@);
            assert(v@ =~= cell_list(self@).map_values(|e: (Square, (int, int))| e.0));
        }
        v
    }

    /// The positions of the lambdas, in the order of `squares_i`.
    pub fn lambdas(&self) -> (v: Vec<Coord>)
        ensures
            v@ == lambda_coords(coord_cells(self@)),
    {
        let all = self.squares_i();
        let mut v: Vec<Coord> = Vec::new();
        let mut i: usize = 0;
        while i < all.len()
            invariant
                i <= all@.len(),
                all@ == coord_cells(self@),
                v@ == lambda_coords(all@.take(i as int)),
            decreases all.len() - i,
        {
            let (sq, c) = all[i];
            if sq == Square::Lambda {
                v.push(c);
            }
            proof {
                lemma_lambda_coords_push(all@.take(i as int), all@[i as int]);
                assert(all@.take(i + 1) =~= all@.take(i as int).push(all@[i as int]));
            }
            i += 1;
        }
        proof {
            assert(all@.take(i as int) =~= all@);
        }
        v
    }

    /// Folds `f` over the squares and their coordinates, in the order of
    /// `squares_i`.
    pub fn foldl<T, F: Fn(T, Square, Coord) -> T>(&self, z: T, f: F) -> (res: T)
        requires
            forall|a: T, s: Square, c: Coord| #[trigger] f.requires((a, s, c)),
        ensures
            folds_to(f, z, coord_cells(self@), res),
    {
        foldl(z, self, f)
    }
}

/// Folds `f` over the squares of `g` and their coordinates, row by row from
/// the bottom, each row left to right.
pub fn foldl<T, F: Fn(T, Square, Coord) -> T>(z: T, g: &Grid, f: F) -> (res: T)
    requires
        forall|a: T, s: Square, c: Coord| #[trigger] f.requires((a, s, c)),
    ensures
        folds_to(f, z, coord_cells(g@), res),
{
    let items = g.squares_i();
    let ghost all = items@;
    let mut accum = z;
    let mut i: usize = 0;
    proof {
        assert(all.skip(0) =~= all);
    }
    while i < items.len()
        invariant
            i <= all.len(),
            all == items@,
            all == coord_cells(g@),
            forall|a: T, s: Square, c: Coord| #[trigger] f.requires((a, s, c)),
            forall|r: T| #[trigger] folds_to(f, accum, all.skip(i as int), r) ==> folds_to(f, z, all, r),
        decreases all.len() - i,
    {
        let (sq, c) = items[i];
        let ghost prev = accum;
        accum = f(accum, sq, c);
        proof {
            assert forall|r: T| #[trigger] folds_to(f, accum, all.skip(i + 1), r) implies folds_to(
                f,
                z,
                all,
                r,
            ) by {
                assert(all.skip(i as int).drop_first() =~= all.skip(i + 1));
                assert(all.skip(i as int)[0] == all[i as int]);
                assert(folds_to(f, prev, all.skip(i as int), r));
            }
        }
        i += 1;
    }
    proof {
        assert(all.skip(i as int) =~= Seq::<(Square, Coord)>::empty());
        assert(folds_to(f, accum, all.skip(i as int), accum));
    }
    accum
}

/// The square at row `r` (from the bottom) and column `c`, both 0-based.
pub open spec fn sq(g: Seq<Seq<Square>>, r: int, c: int) -> Square {
    g[r][c]
}

/// Row `r`, column `c` (0-based) is a square of the grid.
pub open spec fn idx(g: Seq<Seq<Square>>, r: int, c: int) -> bool {
    0 <= r < g.len() && 0 <= c < g[r].len()
}

/// A boulder on top of the rock or lambda at `(r, c)` falls to the right:
/// the squares right of the boulder and right of `(r, c)` are empty.
pub open spec fn spec_right_fallable(g: Seq<Seq<Square>>, r: int, c: int) -> bool {
    (sq(g, r, c) == Square::Rock || sq(g, r, c) == Square::Lambda) && sq(g, r + 1, c + 1)
        == Square::Empty && sq(g, r, c + 1) == Square::Empty
}

pub open spec fn right_fallable_defined(g: Seq<Seq<Square>>, r: int, c: int) -> bool {
    &&& idx(g, r, c)
    &&& (sq(g, r, c) == Square::Rock || sq(g, r, c) == Square::Lambda) ==> idx(g, r + 1, c + 1)
        && (sq(g, r + 1, c + 1) == Square::Empty ==> idx(g, r, c + 1))
}

/// A boulder on top of the rock at `(r, c)` that cannot fall to the right
/// falls to the left: the squares left of the boulder and left of `(r, c)`
/// are empty.
pub open spec fn spec_left_fallable(g: Seq<Seq<Square>>, r: int, c: int) -> bool {
    sq(g, r, c) == Square::Rock && !(sq(g, r + 1, c + 1) == Square::Empty && sq(g, r, c + 1)
        == Square::Empty) && sq(g, r + 1, c - 1) == Square::Empty && sq(g, r, c - 1)
        == Square::Empty
}

pub open spec fn left_fallable_defined(g: Seq<Seq<Square>>, r: int, c: int) -> bool {
    &&& idx(g, r, c)
    &&& sq(g, r, c) == Square::Rock ==> {
        &&& idx(g, r + 1, c + 1)
        &&& sq(g, r + 1, c + 1) == Square::Empty ==> idx(g, r, c + 1)
        &&& !(sq(g, r + 1, c + 1) == Square::Empty && sq(g, r, c + 1) == Square::Empty) ==> idx(
            g,
            r + 1,
            c - 1,
        ) && (sq(g, r + 1, c - 1) == Square::Empty ==> idx(g, r, c - 1))
    }
}

/// If there's a boulder on top of `(r, c)`, will it fall to the right?
pub fn right_fallable(g: &Grid, r: usize, c: usize) -> (b: bool)
    requires
        right_fallable_defined(g@, r as int, c as int),
    ensures
        b == spec_right_fallable(g@, r as int, c as int),
{
    proof {
        g.lemma_lens_fit();
    }
    if g.rows[r][c] == Square::Rock || g.rows[r][c] == Square::Lambda {
        g.rows[r + 1][c + 1] == Square::Empty && g.rows[r][c + 1] == Square::Empty
    } else {
        false
    }
}

/// If there's a boulder on top of `(r, c)`, will it fall to the left?
pub fn left_fallable(g: &Grid, r: usize, c: usize) -> (b: bool)
    requires
        left_fallable_defined(g@, r as int, c as int),
    ensures
        b == spec_left_fallable(g@, r as int, c as int),
{
    proof {
        g.lemma_lens_fit();
    }
    if g.rows[r][c] == Square::Rock {
        !(g.rows[r + 1][c + 1] == Square::Empty && g.rows[r][c + 1] == Square::Empty)
            && g.rows[r + 1][c - 1] == Square::Empty && g.rows[r][c - 1] == Square::Empty
    } else {
        false
    }
}

/// The rock at `(r, c)` moves in the next update: straight down onto an
/// empty square, or sliding off the rock or lambda below it to the right
/// or to the left.
pub open spec fn spec_fallable(g: Seq<Seq<Square>>, r: int, c: int) -> bool {
    sq(g, r, c) == Square::Rock && (sq(g, r - 1, c) == Square::Empty || spec_right_fallable(
        g,
        r - 1,
        c,
    ) || spec_left_fallable(g, r - 1, c))
}

pub open spec fn fallable_defined(g: Seq<Seq<Square>>, r: int, c: int) -> bool {
    &&& idx(g, r, c)
    &&& sq(g, r, c) == Square::Rock ==> {
        &&& idx(g, r - 1, c)
        &&& sq(g, r - 1, c) != Square::Empty ==> right_fallable_defined(g, r - 1, c)
        &&& sq(g, r - 1, c) != Square::Empty && !spec_right_fallable(g, r - 1, c)
            ==> left_fallable_defined(g, r - 1, c)
    }
}

/// If I'm a boulder at this position, will I fall in the update step?
pub fn fallable(g: &Grid, r: usize, c: usize) -> (b: bool)
    requires
        fallable_defined(g@, r as int, c as int),
    ensures
        b == spec_fallable(g@, r as int, c as int),
{
    proof {
        g.lemma_lens_fit();
    }
    g.rows[r][c] == Square::Rock && (g.rows[r - 1][c] == Square::Empty || right_fallable(
        g,
        r - 1,
        c,
    ) || left_fallable(g, r - 1, c))
}

/// Moving into `(r, c)` next turn is safe: the square is on the bottom row,
/// the left column or the right column, or no boulder two rows up is about
/// to land on the square right above it (falling straight down, or sliding
/// off the square left or right of that one).
pub open spec fn spec_safe(g: Seq<Seq<Square>>, r: int, c: int) -> bool {
    if r == 0 || c == 0 || c == g[0].len() - 1 {
        true
    } else {
        !((sq(g, r + 2, c) == Square::Rock && sq(g, r + 1, c) == Square::Empty) || (sq(
            g,
            r + 2,
            c - 1,
        ) == Square::Rock && spec_right_fallable(g, r + 1, c - 1)) || (sq(g, r + 2, c + 1)
            == Square::Rock && spec_left_fallable(g, r + 1, c + 1)))
    }
}

pub open spec fn safe_defined(g: Seq<Seq<Square>>, r: int, c: int) -> bool {
    let from_above = sq(g, r + 2, c) == Square::Rock && sq(g, r + 1, c) == Square::Empty;
    let from_left = sq(g, r + 2, c - 1) == Square::Rock && spec_right_fallable(g, r + 1, c - 1);
    &&& rect(g)
    &&& 0 <= r && 0 <= c
    &&& !(r == 0 || c == 0 || c == g[0].len() - 1) ==> {
        &&& idx(g, r + 2, c)
        &&& sq(g, r + 2, c) == Square::Rock ==> idx(g, r + 1, c)
        &&& !from_above ==> idx(g, r + 2, c - 1) && (sq(g, r + 2, c - 1) == Square::Rock
            ==> right_fallable_defined(g, r + 1, c - 1))
        &&& !from_above && !from_left ==> idx(g, r + 2, c + 1) && (sq(g, r + 2, c + 1)
            == Square::Rock ==> left_fallable_defined(g, r + 1, c + 1))
    }
}

/// Is it safe to move into this tile next turn?
pub fn safe(g: &Grid, r: usize, c: usize) -> (b: bool)
    requires
        safe_defined(g@, r as int, c as int),
    ensures
        b == spec_safe(g@, r as int, c as int),
{
    proof {
        g.lemma_lens_fit();
    }
    if r == 0 || c == 0 || c == g.rows[0].len() - 1 {
        true
    } else {
        !((g.rows[r + 2][c] == Square::Rock && g.rows[r + 1][c] == Square::Empty) || (g.rows[r
            + 2][c - 1] == Square::Rock && right_fallable(g, r + 1, c - 1)) || (g.rows[r + 2][c
            + 1] == Square::Rock && left_fallable(g, r + 1, c + 1)))
    }
}

pub open spec fn spec_safely_passable(g: Seq<Seq<Square>>, r: int, c: int) -> bool {
    let s = sq(g, r, c);
    if s == Square::Rock || s == Square::Wall || s == Square::LiftC {
        false
    } else {
        spec_safe(g, r, c)
    }
}

/// Can the robot pass through this tile safely: it is no rock, wall or
/// closed lift, and it is safe.
pub fn safely_passable(g: &Grid, r: usize, c: usize) -> (b: bool)
    requires
        idx(g@, r as int, c as int),
        !(sq(g@, r as int, c as int) == Square::Rock || sq(g@, r as int, c as int) == Square::Wall
            || sq(g@, r as int, c as int) == Square::LiftC) ==> safe_defined(g@, r as int, c as int),
    ensures
        b == spec_safely_passable(g@, r as int, c as int),
{
    match g.rows[r][c] {
        Square::Rock | Square::Wall | Square::LiftC => false,
        _ => safe(g, r, c),
    }
}

/// The taxicab distance between two positions.
pub open spec fn spec_taxicab(a: (int, int), b: (int, int)) -> int {
    (if a.0 < b.0 {
        b.0 - a.0
    } else {
        a.0 - b.0
    }) + (if a.1 < b.1 {
        b.1 - a.1
    } else {
        a.1 - b.1
    })
}

/// The taxicab distance between two positions.
pub fn taxicab_distance(dest: Coord, src: Coord) -> (d: usize)
    requires
        spec_taxicab((dest.0 as int, dest.1 as int), (src.0 as int, src.1 as int)) <= usize::MAX,
    ensures
        d == spec_taxicab((dest.0 as int, dest.1 as int), (src.0 as int, src.1 as int)),
{
    let (x1, y1) = dest;
    let (x2, y2) = src;
    (if x1 < x2 {
        x2 - x1
    } else {
        x1 - x2
    }) + (if y1 < y2 {
        y2 - y1
    } else {
        y1 - y2
    })
}

impl State {
    /// A copy of the state.
    pub fn copy(&self) -> (c: State)
        ensures
            c@ == self@,
    {
        State {
            flooding: self.flooding,
            waterproof: self.waterproof,
            grid: self.grid.copy(),
            robotpos: self.robotpos,
            water: self.water,
            nextflood: self.nextflood,
            underwater: self.underwater,
            lambdas: self.lambdas,
            lambdasleft: self.lambdasleft,
            score: self.score,
        }
    }

    /// The state as text: its map.
    pub fn to_str(&self) -> (s: String)
        ensures
            s@ == render(self.grid@),
    {
        self.grid.to_str()
    }

    /// One step of the game: the robot makes move `m`, then the map updates.
    /// In strict mode an illegal move, or a move that gets the robot killed,
    /// answers `Oops`; otherwise an illegal move leaves the robot in place
    /// and death ends the game.
    pub fn step(&self, m: Move, strict: bool) -> (res: StepResult)
        requires
            step_defined(self@, m),
        ensures
            res@ == spec_step(self@, m, strict),
    {
        let ghost g = self.grid@;
        let score_ = self.score - 1;
        let (x, y) = self.robotpos;
        if m == Move::A {
            return StepResult::Endgame(score_ + self.lambdas * 25);
        }
        proof {
            self.grid.lemma_lens_fit();
        }
        let (xp, yp) = match m {
            Move::L => (x - 1, y),
            Move::R => (x + 1, y),
            Move::U => (x, y + 1),
            Move::D => (x, y - 1),
            _ => (x, y),
        };
        let mut grid_ = self.grid.copy();
        let mut lambdas_ = self.lambdas;
        let mut lambdasleft_ = self.lambdasleft;
        let sq = grid_.at((xp, yp));
        let (x_, y_) = match sq {
            Square::Empty | Square::Earth | Square::Bot => (xp, yp),
            Square::Lambda => {
                lambdas_ = lambdas_ + 1;
                lambdasleft_ = lambdasleft_ - 1;
                (xp, yp)
            },
            Square::LiftO => {
                return StepResult::Endgame(score_ + self.lambdas * 50);
            },
            Square::Rock => {
                if m == Move::R && grid_.at((x + 2, y)) == Square::Empty {
                    grid_.set((x + 2, yp), Square::Rock);
                    (xp, yp)
                } else if m == Move::L && grid_.at((x - 2, y)) == Square::Empty {
                    grid_.set((x - 2, yp), Square::Rock);
                    (xp, yp)
                } else {
                    if strict {
                        return StepResult::Oops;
                    }
                    (x, y)
                }
            },
            _ => {
                if strict {
                    return StepResult::Oops;
                }
                (x, y)
            },
        };
        grid_.set((x, y), Square::Empty);
        grid_.set((x_, y_), Square::Bot);
        proof {
            let to = if enterable(g, x as int, y as int, m) {
                move_target(x as int, y as int, m)
            } else {
                (x as int, y as int)
            };
            assert(to == (x_ as int, y_ as int));
            assert(grid_@ == grid_after_move(g, x as int, y as int, m, to));
        }
        let rocks_fall = update_map_into(&self.grid, &mut grid_, self.lambdasleft, (x_, y_));
        if grid_.at((x_, y_)) == Square::LiftO {
            return StepResult::Endgame(score_ + lambdas_ * 50);
        }
        if rocks_fall {
            if strict {
                return StepResult::Oops;
            }
            return StepResult::Endgame(score_);
        }
        StepResult::Stepped(
            State {
                flooding: self.flooding,
                waterproof: self.waterproof,
                grid: grid_,
                robotpos: (x_, y_),
                water: self.water,
                nextflood: self.nextflood,
                underwater: self.underwater,
                lambdas: lambdas_,
                lambdasleft: lambdasleft_,
                score: score_,
            },
        )
    }
}

/// `(x, y)` is a square on the edge of the grid.
pub open spec fn on_border(g: Seq<Seq<Square>>, x: int, y: int) -> bool {
    inb(g, x, y) && (x == 1 || y == 1 || x == g[0].len() || y == g.len())
}

/// A square that walls the mine in: a wall or a lift.
pub open spec fn border_square(s: Square) -> bool {
    s == Square::Wall || s == Square::LiftC || s == Square::LiftO
}

/// `p` lies strictly inside the grid's edge.
pub open spec fn interior(g: Seq<Seq<Square>>, p: (int, int)) -> bool {
    2 <= p.0 < g[0].len() && 2 <= p.1 < g.len()
}

/// A mine the robot can play in: a rectangle walled in by walls and lifts,
/// with the robot inside the walls and not on a lambda.
pub open spec fn sound(s: StateView) -> bool {
    &&& rect(s.grid)
    &&& forall|x: int, y: int| #[trigger] on_border(s.grid, x, y) ==> border_square(cell(s.grid, x, y))
    &&& interior(s.grid, s.robot)
    &&& cell(s.grid, s.robot.0, s.robot.1) != Square::Lambda
}

/// The counters have room for `k` more steps: each step costs a point and
/// may collect one lambda.
pub open spec fn room(s: StateView, k: int) -> bool {
    &&& 0 <= k
    &&& 0 <= s.lambdas
    &&& s.lambdas + k <= 0x1_0000_0000_0000
    &&& s.score <= 0x1_0000_0000_0000
    &&& -0x1_0000_0000_0000 <= s.score - k
    &&& -0x1_0000_0000_0000 <= s.lambdasleft - k
}

/// A rock only ever lands on an empty square.
proof fn lemma_rock_lands_on_empty(g: Seq<Seq<Square>>, q: (int, int), p: (int, int))
    requires
        rock_target(g, q.0, q.1) == Some(p),
    ensures
        cell(g, p.0, p.1) == Square::Empty,
{
}

/// In a sound mine, a square of the grid that is not a wall or a lift lies
/// inside the walls.
proof fn lemma_inside(s: StateView, p: (int, int))
    requires
        sound(s),
        inb(s.grid, p.0, p.1),
        !border_square(cell(s.grid, p.0, p.1)),
    ensures
        interior(s.grid, p),
{
    assert(s.grid[p.1 - 1].len() == s.grid[0].len());
    if !interior(s.grid, p) {
        assert(on_border(s.grid, p.0, p.1));
    }
}

/// In a sound mine with room for a step, every move can be simulated: the
/// squares it reads lie in the grid and its counters stay in range.
pub proof fn lemma_sound_step_defined(s: StateView, m: Move)
    requires
        sound(s),
        room(s, 1),
    ensures
        step_defined(s, m),
{
    let g = s.grid;
    let (x, y) = s.robot;
    assert(g[y - 1].len() == g[0].len());
    assert(g[y].len() == g[0].len());
    assert(g[y - 2].len() == g[0].len());
    assert(s.lambdas * 50 <= 0x1_0000_0000_0000 * 50) by (nonlinear_arith)
        requires 0 <= s.lambdas <= 0x1_0000_0000_0000;
    assert(s.lambdas * 25 <= 0x1_0000_0000_0000 * 25) by (nonlinear_arith)
        requires 0 <= s.lambdas <= 0x1_0000_0000_0000;
    assert forall|qx: int, qy: int|
        inb(g, qx, qy) && #[trigger] cell(g, qx, qy) == Square::Rock implies rock_rule_defined(g, qx, qy) by {
        lemma_inside(s, (qx, qy));
        assert(g[qy - 2].len() == g[0].len());
        assert(g[qy - 1].len() == g[0].len());
    }
    let t = move_target(x, y, m);
    if m == Move::R && inb(g, t.0, t.1) && cell(g, t.0, t.1) == Square::Rock {
        lemma_inside(s, t);
    }
    if m == Move::L && inb(g, t.0, t.1) && cell(g, t.0, t.1) == Square::Rock {
        lemma_inside(s, t);
    }
}

/// A step never breaks a mine's soundness: when the game goes on, the new
/// mine is walled in as the old one was, with the robot inside, and the
/// counters have room for one step fewer.
pub proof fn law_step_keeps_sound(s: StateView, m: Move, strict: bool, k: int)
    requires
        sound(s),
    ensures
        spec_step(s, m, strict) matches StepView::Stepped(s2) ==> sound(s2) && (room(s, k) && k >= 1
            ==> room(s2, k - 1)),
{
    let g = s.grid;
    let (x, y) = s.robot;
    let t = move_target(x, y, m);
    if spec_step(s, m, strict) is Stepped {
        assert(m != Move::A);
        assert(g[y - 1].len() == g[0].len());
        assert(g[y].len() == g[0].len());
        assert(g[y - 2].len() == g[0].len());
        let to = if enterable(g, x, y, m) { t } else { (x, y) };
        if enterable(g, x, y, m) {
            lemma_inside(s, t);
        }
        let pushed = if pushes_right(g, x, y, m) {
            put(g, x + 2, y, Square::Rock)
        } else if pushes_left(g, x, y, m) {
            put(g, x - 2, y, Square::Rock)
        } else {
            g
        };
        if pushes_right(g, x, y, m) {
            lemma_inside(s, (x + 1, y));
            lemma_inside(s, (x + 2, y));
        }
        if pushes_left(g, x, y, m) {
            lemma_inside(s, (x - 1, y));
            lemma_inside(s, (x - 2, y));
        }
        let moved = grid_after_move(g, x, y, m, to);
        assert(moved == put(put(pushed, x, y, Square::Empty), to.0, to.1, Square::Bot));
        assert(moved.len() == g.len());
        assert forall|r: int| 0 <= r < g.len() implies #[trigger] moved[r].len() == g[0].len() by {
            assert(g[r].len() == g[0].len());
        }
        assert forall|px: int, py: int| #[trigger] on_border(g, px, py) implies cell(moved, px, py) == cell(g, px, py) by {
            assert(g[py - 1].len() == g[0].len());
        }
        let g2 = update_map(g, moved, s.lambdasleft);
        assert(g2.len() == g.len());
        assert forall|r: int| 0 <= r < g2.len() implies #[trigger] g2[r].len() == g2[0].len() by {
            assert(moved[r].len() == g[0].len());
            assert(moved[0].len() == g[0].len());
        }
        assert forall|px: int, py: int| #[trigger] on_border(g2, px, py) implies border_square(cell(g2, px, py)) by {
            assert(g2[py - 1].len() == g[0].len());
            assert(g[py - 1].len() == g[0].len());
            assert(on_border(g, px, py));
            let p = (px, py);
            if lands_on(g, (p.0, p.1 + 1), p) {
                lemma_rock_lands_on_empty(g, (p.0, p.1 + 1), p);
            }
            if lands_on(g, (p.0 - 1, p.1 + 1), p) {
                lemma_rock_lands_on_empty(g, (p.0 - 1, p.1 + 1), p);
            }
            if lands_on(g, (p.0 + 1, p.1 + 1), p) {
                lemma_rock_lands_on_empty(g, (p.0 + 1, p.1 + 1), p);
            }
            assert(cell(g2, px, py) == updated_cell(g, moved, s.lambdasleft, p));
        }
        assert(g[to.1 - 1].len() == g[0].len());
        assert(cell(moved, to.0, to.1) == Square::Bot);
        assert(cell(g2, to.0, to.1) == updated_cell(g, moved, s.lambdasleft, to));
    }
}

/// A property of every element of every row holds of every element of the
/// rows laid end to end.
proof fn lemma_flatten_all<A>(s: Seq<Seq<A>>, p: spec_fn(A) -> bool)
    requires
        forall|i: int, j: int| 0 <= i < s.len() && 0 <= j < s[i].len() ==> #[trigger] p(s[i][j]),
    ensures
        forall|k: int| 0 <= k < s.flatten_alt().len() ==> #[trigger] p(s.flatten_alt()[k]),
    decreases s.len(),
{
    if s.len() > 0 {
        lemma_flatten_all(s.drop_last(), p);
        let a = s.drop_last().flatten_alt();
        assert(s.flatten_alt() == a + s.last());
        assert forall|k: int| 0 <= k < s.flatten_alt().len() implies #[trigger] p(s.flatten_alt()[k]) by {
            if k < a.len() {
                assert(s.flatten_alt()[k] == a[k]);
            } else {
                assert(s.flatten_alt()[k] == s[s.len() - 1][k - a.len()]);
            }
        }
    }
}

/// Each coordinate that `lambda_coords` picks is that of a lambda among the
/// cells.
proof fn lemma_lambda_coords_from(cells: Seq<(Square, Coord)>, r: spec_fn(Coord) -> bool)
    requires
        forall|k: int| 0 <= k < cells.len() && (#[trigger] cells[k]).0 == Square::Lambda ==> r(cells[k].1),
    ensures
        forall|i: int| 0 <= i < lambda_coords(cells).len() ==> #[trigger] r(lambda_coords(cells)[i]),
    decreases cells.len(),
{
    if cells.len() > 0 {
        let d = cells.drop_last();
        assert forall|k: int| 0 <= k < d.len() && (#[trigger] d[k]).0 == Square::Lambda implies r(d[k].1) by {
            assert(d[k] == cells[k]);
        }
        lemma_lambda_coords_from(d, r);
        let l = cells.last();
        assert(l == cells[cells.len() - 1]);
        let lc = lambda_coords(cells);
        assert forall|i: int| 0 <= i < lc.len() implies #[trigger] r(lc[i]) by {
            if l.0 == Square::Lambda {
                assert(lc == lambda_coords(d).push(l.1));
                if i < lambda_coords(d).len() {
                    assert(lc[i] == lambda_coords(d)[i]);
                }
            } else {
                assert(lc == lambda_coords(d));
            }
        }
    }
}

/// The positions `lambdas` lists are lambda squares of the grid.
pub proof fn lemma_lambdas_in_grid(g: Seq<Seq<Square>>)
    requires
        g.len() <= usize::MAX,
        forall|r: int| 0 <= r < g.len() ==> #[trigger] g[r].len() <= usize::MAX,
    ensures
        forall|i: int|
            0 <= i < lambda_coords(coord_cells(g)).len() ==> {
                let c = #[trigger] lambda_coords(coord_cells(g))[i];
                inb(g, c.0 as int, c.1 as int) && cell(g, c.0 as int, c.1 as int) == Square::Lambda
            },
{
    let ir = indexed_rows(g);
    let p = |e: (Square, (int, int))|
        inb(g, e.1.0, e.1.1) && cell(g, e.1.0, e.1.1) == e.0 && e.1.0 <= usize::MAX && e.1.1 <= usize::MAX;
    assert forall|i: int, j: int| 0 <= i < ir.len() && 0 <= j < ir[i].len() implies #[trigger] p(ir[i][j]) by {
        assert(g[i].len() <= usize::MAX);
    }
    lemma_flatten_all(ir, p);
    let cells = coord_cells(g);
    let r = |c: Coord| inb(g, c.0 as int, c.1 as int) && cell(g, c.0 as int, c.1 as int) == Square::Lambda;
    assert forall|k: int| 0 <= k < cells.len() && (#[trigger] cells[k]).0 == Square::Lambda implies r(cells[k].1) by {
        let e = cell_list(g)[k];
        assert(p(e));
    }
    lemma_lambda_coords_from(cells, r);
    assert forall|i: int| 0 <= i < lambda_coords(coord_cells(g)).len() implies {
        let c = #[trigger] lambda_coords(coord_cells(g))[i];
        inb(g, c.0 as int, c.1 as int) && cell(g, c.0 as int, c.1 as int) == Square::Lambda
    } by {
        assert(r(lambda_coords(cells)[i]));
    }
}

/// Every step that lets the game go on costs one point, so playing a path
/// that lets the game go on costs one point per move.
pub proof fn lemma_step_score(s: StateView, m: Move, strict: bool)
    ensures
        spec_step(s, m, strict) matches StepView::Stepped(s2) ==> s2.score == s.score - 1,
{
}

/// Whether the counters have room for `k` more steps.
impl State {
    pub fn has_room(&self, k: usize) -> (b: bool)
        ensures
            b == room(self@, k as int),
    {
        let big: i128 = 0x1_0000_0000_0000;
        let kk = k as i128;
        0 <= self.lambdas && (self.lambdas as i128) + kk <= big && (self.score as i128) <= big && -big
            <= (self.score as i128) - kk && -big <= (self.lambdasleft as i128) - kk
    }
}

impl State {
    /// Whether the mine is one the robot can play in (see `sound`).
    pub fn is_sound(&self) -> (b: bool)
        ensures
            b == sound(self@),
    {
        let ghost g = self@.grid;
        let h = self.grid.rows.len();
        if h == 0 {
            return false;
        }
        let w = self.grid.rows[0].len();
        if w == 0 {
            return false;
        }
        let mut r: usize = 0;
        while r < h
            invariant
                g == self@.grid,
                h == g.len(),
                h > 0,
                w == g[0].len(),
                r <= h,
                forall|k: int| 0 <= k < r ==> #[trigger] g[k].len() == w,
            decreases h - r,
        {
            if self.grid.rows[r].len() != w {
                assert(g[r as int].len() != w);
                return false;
            }
            r += 1;
        }
        assert(rect(g));
        let mut yi: usize = 0;
        while yi < h
            invariant
                g == self@.grid,
                rect(g),
                h == g.len(),
                w == g[0].len(),
                yi <= h,
                forall|px: int, py: int| 1 <= py <= yi && #[trigger] on_border(g, px, py) ==> border_square(cell(g, px, py)),
            decreases h - yi,
        {
            let y = yi + 1;
            let mut xi: usize = 0;
            while xi < w
                invariant
                    g == self@.grid,
                    rect(g),
                    h == g.len(),
                    w == g[0].len(),
                    yi < h,
                    y == yi + 1,
                    xi <= w,
                    forall|px: int, py: int| 1 <= py <= yi && #[trigger] on_border(g, px, py) ==> border_square(cell(g, px, py)),
                    forall|px: int| 1 <= px <= xi && #[trigger] on_border(g, px, y as int) ==> border_square(cell(g, px, y as int)),
                decreases w - xi,
            {
                let x = xi + 1;
                assert(g[y - 1].len() == w);
                if x == 1 || y == 1 || x == w || y == h {
                    match self.grid.at((x, y)) {
                        Square::Wall | Square::LiftC | Square::LiftO => {},
                        _ => {
                            assert(on_border(g, x as int, y as int));
                            return false;
                        },
                    }
                }
                xi += 1;
            }
            assert forall|px: int, py: int| 1 <= py <= yi + 1 && #[trigger] on_border(g, px, py) implies border_square(cell(g, px, py)) by {
                if py == y {
                    assert(g[py - 1].len() == w);
                }
            }
            yi += 1;
        }
        let (rx, ry) = self.robotpos;
        if !(2 <= rx && rx < w && 2 <= ry && ry < h) {
            return false;
        }
        assert(g[ry - 1].len() == w);
        self.grid.at((rx, ry)) != Square::Lambda
    }
}

/// Mirroring a move twice gives it back.
pub proof fn law_flip_twice(m: Move)
    ensures
        flipped(flipped(m)) == m,
{
}

/// The taxicab distance does not depend on the direction.
pub proof fn law_taxicab_symmetric(a: (int, int), b: (int, int))
    ensures
        spec_taxicab(a, b) == spec_taxicab(b, a),
        spec_taxicab(a, b) >= 0,
        spec_taxicab(a, b) == 0 <==> a == b,
{
}

/// A move onto a wall, a closed lift, or a rock the robot cannot push is
/// refused: a strict step answers `Oops`, and a lenient step that goes on
/// leaves the robot where it was.
pub proof fn law_illegal_move(s: StateView, m: Move)
    requires
        step_defined(s, m),
        m == Move::U || m == Move::D || m == Move::L || m == Move::R,
        ({
            let t = move_target(s.robot.0, s.robot.1, m);
            let q = cell(s.grid, t.0, t.1);
            q == Square::Wall || q == Square::LiftC || (q == Square::Rock && !pushes_right(
                s.grid,
                s.robot.0,
                s.robot.1,
                m,
            ) && !pushes_left(s.grid, s.robot.0, s.robot.1, m))
        }),
    ensures
        spec_step(s, m, true) == StepView::Oops,
        spec_step(s, m, false) matches StepView::Stepped(s2) ==> s2.robot == s.robot,
{
}

/// A step changes neither the flooding rate, the proofing, the water, the
/// next flood nor the time under water; when the game goes on it costs one
/// point and leaves the grid's shape as it was.
pub proof fn law_step_keeps_figures(s: StateView, m: Move, strict: bool)
    requires
        step_defined(s, m),
    ensures
        spec_step(s, m, strict) matches StepView::Stepped(s2) ==> {
            &&& s2.flooding == s.flooding
            &&& s2.waterproof == s.waterproof
            &&& s2.water == s.water
            &&& s2.nextflood == s.nextflood
            &&& s2.underwater == s.underwater
            &&& s2.score == s.score - 1
            &&& s2.grid.len() == s.grid.len()
            &&& forall|i: int| 0 <= i < s.grid.len() ==> #[trigger] s2.grid[i].len() == s.grid[i].len()
        },
{
    let g = s.grid;
    let (x, y) = s.robot;
    if spec_step(s, m, strict) is Stepped {
        let t = move_target(x, y, m);
        let to = if enterable(g, x, y, m) { t } else { (x, y) };
        let pushed = if pushes_right(g, x, y, m) {
            put(g, x + 2, y, Square::Rock)
        } else if pushes_left(g, x, y, m) {
            put(g, x - 2, y, Square::Rock)
        } else {
            g
        };
        assert(pushed.len() == g.len());
        assert(forall|i: int| 0 <= i < g.len() ==> #[trigger] pushed[i].len() == g[i].len());
        let cleared = put(pushed, x, y, Square::Empty);
        assert(cleared.len() == g.len());
        assert(forall|i: int| 0 <= i < g.len() ==> #[trigger] cleared[i].len() == g[i].len());
        let moved = put(cleared, to.0, to.1, Square::Bot);
        assert(moved == grid_after_move(g, x, y, m, to));
        assert(moved.len() == g.len());
        assert(forall|i: int| 0 <= i < g.len() ==> #[trigger] moved[i].len() == g[i].len());
    }
}

/// The square at `(x, y)` after a step that goes on is the map update's
/// answer for it.
proof fn lemma_stepped_cell(s: StateView, m: Move, strict: bool, x: int, y: int)
    requires
        step_defined(s, m),
        inb(s.grid, x, y),
    ensures
        spec_step(s, m, strict) matches StepView::Stepped(s2) ==> cell(s2.grid, x, y) == updated_cell(
            s.grid,
            grid_after_move(
                s.grid,
                s.robot.0,
                s.robot.1,
                m,
                if enterable(s.grid, s.robot.0, s.robot.1, m) {
                    move_target(s.robot.0, s.robot.1, m)
                } else {
                    s.robot
                },
            ),
            s.lambdasleft,
            (x, y),
        ),
{
    if spec_step(s, m, strict) is Stepped {
        law_step_keeps_figures(s, m, strict);
        let g = s.grid;
        let (rx, ry) = s.robot;
        let t = move_target(rx, ry, m);
        let to = if enterable(g, rx, ry, m) { t } else { (rx, ry) };
        let moved = grid_after_move(g, rx, ry, m, to);
        let pushed = if pushes_right(g, rx, ry, m) {
            put(g, rx + 2, ry, Square::Rock)
        } else if pushes_left(g, rx, ry, m) {
            put(g, rx - 2, ry, Square::Rock)
        } else {
            g
        };
        let cleared = put(pushed, rx, ry, Square::Empty);
        assert(forall|i: int| 0 <= i < g.len() ==> #[trigger] pushed[i].len() == g[i].len());
        assert(forall|i: int| 0 <= i < g.len() ==> #[trigger] cleared[i].len() == g[i].len());
        assert(forall|i: int| 0 <= i < g.len() ==> #[trigger] moved[i].len() == g[i].len());
        assert(moved.len() == g.len());
        assert(moved[y - 1].len() == g[y - 1].len());
    }
}

/// The map update moves rocks by the rules of the mine. When a step goes
/// on: a rock over an empty square falls into it; a rock on a rock slides
/// down to the right when the squares right of it and below right are
/// empty, and otherwise down to the left when the squares left of it and
/// below left are; a rock on a lambda slides down to the right when the
/// squares right of it and below right are empty. A rock that moves leaves
/// its square empty.
pub proof fn law_rocks_move(s: StateView, m: Move, strict: bool, x: int, y: int)
    requires
        step_defined(s, m),
        inb(s.grid, x, y),
        cell(s.grid, x, y) == Square::Rock,
    ensures
        spec_step(s, m, strict) matches StepView::Stepped(s2) ==> {
            let g = s.grid;
            let g2 = s2.grid;
            let right_clear = cell(g, x + 1, y) == Square::Empty && cell(g, x + 1, y - 1) == Square::Empty;
            let left_clear = cell(g, x - 1, y) == Square::Empty && cell(g, x - 1, y - 1) == Square::Empty;
            &&& cell(g, x, y - 1) == Square::Empty ==> cell(g2, x, y - 1) == Square::Rock && cell(g2, x, y)
                == Square::Empty
            &&& cell(g, x, y - 1) == Square::Rock && right_clear ==> cell(g2, x + 1, y - 1) == Square::Rock
                && cell(g2, x, y) == Square::Empty
            &&& cell(g, x, y - 1) == Square::Rock && !right_clear && left_clear ==> cell(g2, x - 1, y - 1)
                == Square::Rock && cell(g2, x, y) == Square::Empty
            &&& cell(g, x, y - 1) == Square::Lambda && right_clear ==> cell(g2, x + 1, y - 1)
                == Square::Rock && cell(g2, x, y) == Square::Empty
        },
{
    if spec_step(s, m, strict) is Stepped {
        let g = s.grid;
        assert(m != Move::A);
        assert(rock_rule_defined(g, x, y));
        lemma_stepped_cell(s, m, strict, x, y);
        lemma_stepped_cell(s, m, strict, x, y - 1);
        let below = cell(g, x, y - 1);
        if below == Square::Rock || below == Square::Lambda {
            if cell(g, x + 1, y) == Square::Empty {
                lemma_stepped_cell(s, m, strict, x + 1, y - 1);
            }
        }
        if below == Square::Rock && !(cell(g, x + 1, y) == Square::Empty && cell(g, x + 1, y - 1)
            == Square::Empty) && cell(g, x - 1, y) == Square::Empty {
            lemma_stepped_cell(s, m, strict, x - 1, y - 1);
        }
        assert(!placed(g, (x, y)));
    }
}

/// Closed lifts (other than one the robot stands on) open in a step that
/// goes on from a mine with no lambda left, and stay closed otherwise.
pub proof fn law_lifts_open(s: StateView, m: Move, strict: bool, x: int, y: int)
    requires
        step_defined(s, m),
        inb(s.grid, x, y),
        cell(s.grid, x, y) == Square::LiftC,
        (x, y) != s.robot,
    ensures
        spec_step(s, m, strict) matches StepView::Stepped(s2) ==> cell(s2.grid, x, y) == if s.lambdasleft
            == 0 {
            Square::LiftO
        } else {
            Square::LiftC
        },
{
    if spec_step(s, m, strict) is Stepped {
        let g = s.grid;
        let (rx, ry) = s.robot;
        assert(m != Move::A);
        lemma_stepped_cell(s, m, strict, x, y);
        assert(!placed(g, (x, y)));
        let to = if enterable(g, rx, ry, m) { move_target(rx, ry, m) } else { (rx, ry) };
        assert(to != (x, y));
        let pushed = if pushes_right(g, rx, ry, m) {
            put(g, rx + 2, ry, Square::Rock)
        } else if pushes_left(g, rx, ry, m) {
            put(g, rx - 2, ry, Square::Rock)
        } else {
            g
        };
        assert(cell(pushed, x, y) == Square::LiftC);
        assert(cell(put(pushed, rx, ry, Square::Empty), x, y) == Square::LiftC);
        assert(cell(grid_after_move(g, rx, ry, m, to), x, y) == Square::LiftC);
    }
}

/// The safety rule says what the map update does: moving into an inner
/// square `(r, c)` (0-based, rows from the bottom) is safe exactly when no
/// rock lands on the square right above it in the next map update.
pub proof fn law_safe_means_no_rock_lands(g: Seq<Seq<Square>>, r: int, c: int)
    requires
        rect(g),
        0 < r,
        r + 2 < g.len(),
        0 < c < g[0].len() - 1,
    ensures
        spec_safe(g, r, c) <==> !placed(g, (c + 1, r + 2)),
{
    assert(g[r + 2].len() == g[0].len());
}

/// A boulder falls in the next update exactly when the map update moves it.
pub proof fn law_fallable_means_moving(g: Seq<Seq<Square>>, r: int, c: int)
    ensures
        spec_fallable(g, r, c) <==> moves_away(g, (c + 1, r + 1)),
{
}

/// A boulder on top of `(r, c)` slides down to the right in the map update
/// exactly when `right_fallable` holds there, and down to the left exactly
/// when `left_fallable` does.
pub proof fn law_fallable_sides(g: Seq<Seq<Square>>, r: int, c: int)
    ensures
        spec_right_fallable(g, r, c) <==> rock_target(g, c + 1, r + 2) == Some((c + 2, r + 1)),
        spec_left_fallable(g, r, c) <==> rock_target(g, c + 1, r + 2) == Some((c, r + 1)),
{
}

/// A strict step into an inner square that the safety rule calls safe does
/// not kill the robot: moving there is no mistake and no rock lands on it.
pub proof fn law_safe_step(s: StateView, m: Move, r: int, c: int)
    requires
        step_defined(s, m),
        rect(s.grid),
        0 < r,
        r + 2 < s.grid.len(),
        0 < c < s.grid[0].len() - 1,
        enterable(s.grid, s.robot.0, s.robot.1, m),
        move_target(s.robot.0, s.robot.1, m) == (c + 1, r + 1),
        m != Move::A,
        spec_safe(s.grid, r, c),
    ensures
        spec_step(s, m, true) != StepView::Oops,
{
    law_safe_means_no_rock_lands(s.grid, r, c);
}

/// A move the robot can make takes it to the square it names (a move it
/// cannot make leaves it in place, and is a mistake in strict play). A
/// lambda there is collected: one more collected, one fewer left. A rock
/// pushed right or left lies two squares away afterwards. The robot shows
/// on its new square unless a rock lands there or it pushed a rock off it.
pub proof fn law_robot_moves(s: StateView, m: Move, strict: bool)
    requires
        step_defined(s, m),
        m == Move::U || m == Move::D || m == Move::L || m == Move::R,
    ensures
        ({
            let (x, y) = s.robot;
            let g = s.grid;
            let t = move_target(x, y, m);
            let q = cell(g, t.0, t.1);
            let can = q == Square::Empty || q == Square::Earth || q == Square::Lambda || (m == Move::R && q
                == Square::Rock && cell(g, x + 2, y) == Square::Empty) || (m == Move::L && q == Square::Rock
                && cell(g, x - 2, y) == Square::Empty);
            &&& !can && q != Square::LiftO && q != Square::Bot ==> spec_step(s, m, true) == StepView::Oops
            &&& spec_step(s, m, strict) matches StepView::Stepped(s2) ==> {
                &&& can ==> s2.robot == t
                &&& !can && q != Square::Bot ==> s2.robot == s.robot
                &&& s2.lambdas == s.lambdas + if can && q == Square::Lambda { 1int } else { 0int }
                &&& s2.lambdasleft == s.lambdasleft - if can && q == Square::Lambda { 1int } else { 0int }
                &&& m == Move::R && q == Square::Rock && cell(g, x + 2, y) == Square::Empty ==> cell(
                    s2.grid,
                    x + 2,
                    y,
                ) == Square::Rock
                &&& m == Move::L && q == Square::Rock && cell(g, x - 2, y) == Square::Empty ==> cell(
                    s2.grid,
                    x - 2,
                    y,
                ) == Square::Rock
                &&& can && q != Square::Rock && !placed(g, t) ==> cell(s2.grid, t.0, t.1) == Square::Bot
            }
        }),
{
    let (x, y) = s.robot;
    let g = s.grid;
    let t = move_target(x, y, m);
    let q = cell(g, t.0, t.1);
    if spec_step(s, m, strict) is Stepped {
        let to = if enterable(g, x, y, m) { t } else { (x, y) };
        let pushed = if pushes_right(g, x, y, m) {
            put(g, x + 2, y, Square::Rock)
        } else if pushes_left(g, x, y, m) {
            put(g, x - 2, y, Square::Rock)
        } else {
            g
        };
        assert(g[y - 1].len() == g[0].len());
        if m == Move::R && q == Square::Rock && cell(g, x + 2, y) == Square::Empty {
            lemma_stepped_cell(s, m, strict, x + 2, y);
            assert(!moves_away(g, (x + 2, y)));
            assert(cell(pushed, x + 2, y) == Square::Rock);
            assert(cell(put(pushed, x, y, Square::Empty), x + 2, y) == Square::Rock);
            assert(cell(put(put(pushed, x, y, Square::Empty), to.0, to.1, Square::Bot), x + 2, y) == Square::Rock);
        }
        if m == Move::L && q == Square::Rock && cell(g, x - 2, y) == Square::Empty {
            lemma_stepped_cell(s, m, strict, x - 2, y);
            assert(!moves_away(g, (x - 2, y)));
            assert(cell(pushed, x - 2, y) == Square::Rock);
            assert(cell(put(pushed, x, y, Square::Empty), x - 2, y) == Square::Rock);
            assert(cell(put(put(pushed, x, y, Square::Empty), to.0, to.1, Square::Bot), x - 2, y) == Square::Rock);
        }
        if enterable(g, x, y, m) && q != Square::Rock && !placed(g, t) {
            lemma_stepped_cell(s, m, strict, t.0, t.1);
            assert(cell(put(put(pushed, x, y, Square::Empty), to.0, to.1, Square::Bot), t.0, t.1) == Square::Bot);
        }
    }
}

/// How a step ends the game: aborting scores the points so far, less one
/// for the move, plus 25 a lambda collected; entering the open lift scores
/// them plus 50 a lambda; a rock landing right above the square the robot
/// moves to crushes it (a mistake in strict play, the end with the points so
/// far less one otherwise). A step that goes on leaves no rock landing right
/// above the robot.
pub proof fn law_step_endings(s: StateView, m: Move, strict: bool)
    requires
        step_defined(s, m),
    ensures
        ({
            let (x, y) = s.robot;
            let g = s.grid;
            let t = move_target(x, y, m);
            let q = cell(g, t.0, t.1);
            &&& m == Move::A ==> spec_step(s, m, strict) == StepView::Endgame(s.score - 1 + s.lambdas * 25)
            &&& m != Move::A && q == Square::LiftO ==> spec_step(s, m, strict) == StepView::Endgame(
                s.score - 1 + s.lambdas * 50,
            )
            &&& m != Move::A && enterable(g, x, y, m) && placed(g, (t.0, t.1 + 1)) ==> spec_step(s, m, true)
                == StepView::Oops && spec_step(s, m, false) == StepView::Endgame(s.score - 1)
            &&& spec_step(s, m, strict) matches StepView::Stepped(s2) ==> !placed(g, (s2.robot.0, s2.robot.1 + 1))
        }),
{
    let (x, y) = s.robot;
    let g = s.grid;
    let t = move_target(x, y, m);
    if m != Move::A && enterable(g, x, y, m) && placed(g, (t.0, t.1 + 1)) {
        lemma_stepped_cell(s, m, false, t.0, t.1);
        let pushed = if pushes_right(g, x, y, m) {
            put(g, x + 2, y, Square::Rock)
        } else if pushes_left(g, x, y, m) {
            put(g, x - 2, y, Square::Rock)
        } else {
            g
        };
        let moved = put(put(pushed, x, y, Square::Empty), t.0, t.1, Square::Bot);
        assert(g[y - 1].len() == g[0].len());
        assert(cell(moved, t.0, t.1) == Square::Bot);
        assert(updated_cell(g, moved, s.lambdasleft, t) != Square::LiftO);
        let g2 = update_map(g, moved, s.lambdasleft);
        law_step_keeps_figures(s, m, false);
    }
}

/// The map characters: `R` the robot, `#` a wall, `*` a rock, `\\` a lambda,
/// `L` a closed lift, `O` an open lift, `.` earth and a space empty space;
/// no other character is a square, and printing a square gives back the
/// character it is read from.
pub proof fn law_map_characters(c: char, q: Square)
    ensures
        char_square('R') == Some(Square::Bot),
        char_square('#') == Some(Square::Wall),
        char_square('*') == Some(Square::Rock),
        char_square('\\') == Some(Square::Lambda),
        char_square('L') == Some(Square::LiftC),
        char_square('O') == Some(Square::LiftO),
        char_square('.') == Some(Square::Earth),
        char_square(' ') == Some(Square::Empty),
        char_square(c) is Some <==> (c == 'R' || c == '#' || c == '*' || c == '\\' || c == 'L' || c == 'O'
            || c == '.' || c == ' '),
        char_square(square_char(q)) == Some(q),
        char_square(c) matches Some(q2) ==> square_char(q2) == c,
{
}

/// The moves and their letters: `U` up (one row higher), `D` down, `L` left
/// (one column lower), `R` right, `W` wait and `A` abort, read in either
/// case; the robot's target square is its own shifted so; mirroring swaps
/// left and right only.
pub proof fn law_moves(x: int, y: int, c: char, m: Move)
    ensures
        move_target(x, y, Move::U) == (x, y + 1),
        move_target(x, y, Move::D) == (x, y - 1),
        move_target(x, y, Move::L) == (x - 1, y),
        move_target(x, y, Move::R) == (x + 1, y),
        move_target(x, y, Move::W) == (x, y),
        char_move(c) is Some <==> (c == 'u' || c == 'U' || c == 'd' || c == 'D' || c == 'l' || c == 'L' || c
            == 'r' || c == 'R' || c == 'w' || c == 'W' || c == 'a' || c == 'A'),
        char_move(move_char(m)) == Some(m),
        char_move('U') == Some(Move::U) && char_move('D') == Some(Move::D) && char_move('L') == Some(Move::L)
            && char_move('R') == Some(Move::R) && char_move('W') == Some(Move::W) && char_move('A') == Some(
            Move::A,
        ),
        flipped(Move::L) == Move::R && flipped(Move::R) == Move::L && flipped(Move::U) == Move::U
            && flipped(Move::D) == Move::D && flipped(Move::W) == Move::W && flipped(Move::A) == Move::A,
{
}

/// The robot can pass through a square safely exactly when it is no rock,
/// wall or closed lift and moving into it is safe.
pub proof fn law_safely_passable(g: Seq<Seq<Square>>, r: int, c: int)
    ensures
        spec_safely_passable(g, r, c) <==> (sq(g, r, c) != Square::Rock && sq(g, r, c) != Square::Wall && sq(
            g,
            r,
            c,
        ) != Square::LiftC && spec_safe(g, r, c)),
{
}

} // verus!
