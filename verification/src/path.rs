//! Path generation: a breadth-first "brushfire" from the robot over the
//! squares it can safely walk, that stops at the nearest target and can be
//! resumed for the next one, and the replay of a path in the game.

use vstd::prelude::*;
use crate::state::{Coord, Grid, Move, Square, State, StepResult, StepView, StateView, cell, inb, rect, spec_step, step_defined, sound, room, lemma_sound_step_defined, law_step_keeps_sound};

verus! {

/// A path: the moves to make, in order.
pub type Path = Vec<Move>;

/// A thing that the pathfinder will try to route through.
pub trait Target {
    /// Where the target is.
    spec fn spec_coord(&self) -> Coord;

    /// How valuable the target is.
    spec fn spec_score(&self) -> i64;

    /// Where reaching the target takes the robot, and the moves that take it
    /// there.
    spec fn spec_traverse(&self) -> (Coord, Seq<Move>);

    /// Where is this target?
    fn coord(&self) -> (c: Coord)
        ensures
            c == self.spec_coord(),
    ;

    /// How valuable is this target? Can be negative if it costs you
    /// something to go there.
    fn score(&self) -> (s: i64)
        ensures
            s == self.spec_score(),
    ;

    /// Call this when you get to this target: targets like lambdas don't
    /// move you, but some do.
    fn traverse(&self) -> (r: (Coord, Path))
        ensures
            r.0 == self.spec_traverse().0,
            r.1@ == self.spec_traverse().1,
    ;
}

/// A lambda position is a target worth 25 that leaves the robot where it is.
impl Target for Coord {
    open spec fn spec_coord(&self) -> Coord {
        *self
    }

    open spec fn spec_score(&self) -> i64 {
        25
    }

    open spec fn spec_traverse(&self) -> (Coord, Seq<Move>) {
        (*self, Seq::empty())
    }

    fn coord(&self) -> (c: Coord) {
        *self
    }

    fn score(&self) -> (s: i64) {
        25
    }

    fn traverse(&self) -> (r: (Coord, Path)) {
        (*self, Vec::new())
    }
}

/// One of two kinds of target.
pub enum Either<L, R> {
    Left(L),
    Right(R),
}

/// Either kind of target behaves as the target it holds.
impl<L: Target, R: Target> Target for Either<L, R> {
    open spec fn spec_coord(&self) -> Coord {
        match self {
            Either::Left(x) => x.spec_coord(),
            Either::Right(x) => x.spec_coord(),
        }
    }

    open spec fn spec_score(&self) -> i64 {
        match self {
            Either::Left(x) => x.spec_score(),
            Either::Right(x) => x.spec_score(),
        }
    }

    open spec fn spec_traverse(&self) -> (Coord, Seq<Move>) {
        match self {
            Either::Left(x) => x.spec_traverse(),
            Either::Right(x) => x.spec_traverse(),
        }
    }

    fn coord(&self) -> (c: Coord) {
        match self {
            Either::Left(x) => x.coord(),
            Either::Right(x) => x.coord(),
        }
    }

    fn score(&self) -> (s: i64) {
        match self {
            Either::Left(x) => x.score(),
            Either::Right(x) => x.score(),
        }
    }

    fn traverse(&self) -> (r: (Coord, Path)) {
        match self {
            Either::Left(x) => x.traverse(),
            Either::Right(x) => x.traverse(),
        }
    }
}

/// A square the brushfire may enter.
pub open spec fn passable_square(s: Square) -> bool {
    s == Square::Empty || s == Square::Earth || s == Square::Lambda || s == Square::LiftO
}

/// `c` is a square of the grid that the brushfire may enter.
pub open spec fn open_cell(g: Seq<Seq<Square>>, c: (int, int)) -> bool {
    inb(g, c.0, c.1) && passable_square(cell(g, c.0, c.1))
}

/// `c` can be reached from `src` in at most `k` moves through squares the
/// brushfire may enter.
pub open spec fn within(g: Seq<Seq<Square>>, src: (int, int), c: (int, int), k: nat) -> bool
    decreases k,
{
    c == src || (k > 0 && open_cell(g, c) && (within(g, src, (c.0 - 1, c.1), (k - 1) as nat)
        || within(g, src, (c.0 + 1, c.1), (k - 1) as nat) || within(
        g,
        src,
        (c.0, c.1 - 1),
        (k - 1) as nat,
    ) || within(g, src, (c.0, c.1 + 1), (k - 1) as nat)))
}

/// `c` is exactly `k` moves away from `src`.
pub open spec fn at_distance(g: Seq<Seq<Square>>, src: (int, int), c: (int, int), k: nat) -> bool {
    within(g, src, c, k) && (k == 0 || !within(g, src, c, (k - 1) as nat))
}

/// Reachable within `k` moves means reachable within more.
pub proof fn lemma_within_mono(g: Seq<Seq<Square>>, src: (int, int), c: (int, int), k: nat, j: nat)
    requires
        within(g, src, c, k),
        k <= j,
    ensures
        within(g, src, c, j),
    decreases k,
{
    if c != src && k > 0 {
        let k1 = (k - 1) as nat;
        let j1 = (j - 1) as nat;
        if within(g, src, (c.0 - 1, c.1), k1) {
            lemma_within_mono(g, src, (c.0 - 1, c.1), k1, j1);
        } else if within(g, src, (c.0 + 1, c.1), k1) {
            lemma_within_mono(g, src, (c.0 + 1, c.1), k1, j1);
        } else if within(g, src, (c.0, c.1 - 1), k1) {
            lemma_within_mono(g, src, (c.0, c.1 - 1), k1, j1);
        } else {
            lemma_within_mono(g, src, (c.0, c.1 + 1), k1, j1);
        }
    }
}

/// How a move shifts the robot.
pub open spec fn delta(m: Move) -> (int, int) {
    match m {
        Move::R => (1, 0),
        Move::L => (-1, 0),
        Move::U => (0, 1),
        Move::D => (0, -1),
        _ => (0, 0),
    }
}

/// A real move: up, down, left or right.
pub open spec fn is_step(m: Move) -> bool {
    m == Move::R || m == Move::L || m == Move::U || m == Move::D
}

/// Where following `p` from `src` leads, on coordinates alone.
pub open spec fn walk_end(src: (int, int), p: Seq<Move>) -> (int, int)
    decreases p.len(),
{
    if p.len() == 0 {
        src
    } else {
        let e = walk_end(src, p.drop_last());
        (e.0 + delta(p.last()).0, e.1 + delta(p.last()).1)
    }
}

/// Following `p` from `src` makes real moves and enters only squares the
/// brushfire may enter.
pub open spec fn walk_ok(g: Seq<Seq<Square>>, src: (int, int), p: Seq<Move>) -> bool
    decreases p.len(),
{
    p.len() == 0 || (walk_ok(g, src, p.drop_last()) && is_step(p.last()) && open_cell(
        g,
        walk_end(src, p),
    ))
}

/// A walk of `k` moves reaches its end within `k` moves.
pub proof fn lemma_walk_within(g: Seq<Seq<Square>>, src: (int, int), p: Seq<Move>)
    requires
        walk_ok(g, src, p),
    ensures
        within(g, src, walk_end(src, p), p.len()),
    decreases p.len(),
{
    if p.len() > 0 {
        lemma_walk_within(g, src, p.drop_last());
        let e = walk_end(src, p.drop_last());
        let c = walk_end(src, p);
        assert(within(g, src, e, (p.len() - 1) as nat));
        if c != src {
            assert(e == (c.0 - 1, c.1) || e == (c.0 + 1, c.1) || e == (c.0, c.1 - 1) || e == (c.0, c.1 + 1));
        }
    }
}

/// A square the brushfire reached, with the move that entered it.
pub type BoundaryElement = (Coord, Vec<Move>);

/// The state of a brushfire: for each square whether it was reached and the
/// move that reached it (`W` at the start), and the squares reached last.
pub struct PathState {
    pub visited: Vec<Vec<(bool, Vec<Move>)>>,
    pub boundary: Vec<BoundaryElement>,
    /// How many rounds the fire has spread.
    pub round: Ghost<nat>,
    /// How far each reached square is from the start.
    pub depth: Ghost<Map<(int, int), nat>>,
}

/// The square a move came from.
pub open spec fn back(c: (int, int), m: Move) -> (int, int) {
    (c.0 - delta(m).0, c.1 - delta(m).1)
}

impl PathState {
    pub open spec fn vis(&self, c: (int, int)) -> bool {
        self.visited@[c.1 - 1]@[c.0 - 1].0
    }

    pub open spec fn moves(&self, c: (int, int)) -> Seq<Move> {
        self.visited@[c.1 - 1]@[c.0 - 1].1@
    }

    pub open spec fn bcoord(&self, i: int) -> (int, int) {
        (self.boundary@[i].0.0 as int, self.boundary@[i].0.1 as int)
    }

    pub open spec fn dep(&self, c: (int, int)) -> nat {
        self.depth@[c]
    }

    /// The facts a reached square carries: its distance from the start, and
    /// the move that entered it from a square one step closer.
    pub open spec fn reached_ok(&self, g: Seq<Seq<Square>>, src: (int, int), c: (int, int)) -> bool {
        let d = self.dep(c);
        &&& self.depth@.dom().contains(c)
        &&& d <= self.round@
        &&& at_distance(g, src, c, d)
        &&& (d == 0 <==> c == src)
        &&& c == src ==> self.moves(c) == seq![Move::W]
        &&& c != src ==> {
            &&& self.moves(c).len() == 1
            &&& is_step(self.moves(c)[0])
            &&& open_cell(g, c)
            &&& inb(g, back(c, self.moves(c)[0]).0, back(c, self.moves(c)[0]).1)
            &&& self.vis(back(c, self.moves(c)[0]))
            &&& self.dep(back(c, self.moves(c)[0])) + 1 == d
        }
    }

    /// The brushfire from `src` over grid `g` has spread `round` rounds: it
    /// has reached exactly the squares within that many moves, and its
    /// boundary holds exactly those reached in the last round.
    pub open spec fn wf(&self, g: Seq<Seq<Square>>, src: (int, int)) -> bool {
        self.wf_reach(g, src) && self.wf_layers(g, src)
    }

    /// The squares reached, their distances and the moves that entered them.
    pub open spec fn wf_reach(&self, g: Seq<Seq<Square>>, src: (int, int)) -> bool {
        &&& rect(g)
        &&& inb(g, src.0, src.1)
        &&& self.visited@.len() == g.len()
        &&& forall|y: int| 0 <= y < g.len() ==> (#[trigger] self.visited@[y])@.len() == g[0].len()
        &&& forall|x: int, y: int|
            #![trigger self.vis((x, y))]
            inb(g, x, y) ==> (self.vis((x, y)) <==> within(g, src, (x, y), self.round@))
        &&& forall|x: int, y: int|
            #![trigger self.vis((x, y))]
            inb(g, x, y) && self.vis((x, y)) ==> self.reached_ok(g, src, (x, y))
        &&& forall|c: (int, int)| #[trigger] self.depth@.dom().contains(c) ==> inb(g, c.0, c.1) && self.vis(c)
        &&& forall|i: int|
            0 <= i < self.boundary@.len() ==> {
                &&& inb(g, (#[trigger] self.bcoord(i)).0, self.bcoord(i).1)
                &&& self.vis(self.bcoord(i))
                &&& self.dep(self.bcoord(i)) == self.round@
            }
        &&& forall|i: int, j: int|
            0 <= i < self.boundary@.len() && 0 <= j < self.boundary@.len() && i != j
                ==> #[trigger] self.bcoord(i) != #[trigger] self.bcoord(j)
        &&& forall|x: int, y: int|
            #![trigger self.vis((x, y))]
            inb(g, x, y) && self.vis((x, y)) && self.dep((x, y)) == self.round@ ==> exists|i: int|
                0 <= i < self.boundary@.len() && #[trigger] self.bcoord(i) == (x, y)
    }

    /// The boundary is the fire's last layer, and each reached square was
    /// entered by the move its layer gives it.
    pub open spec fn wf_layers(&self, g: Seq<Seq<Square>>, src: (int, int)) -> bool {
        &&& pairs(self.boundary@) == layer(g, src, self.round@)
        &&& forall|x: int, y: int|
            #![trigger self.vis((x, y))]
            inb(g, x, y) && self.vis((x, y)) && (x, y) != src ==> layer(g, src, self.dep((x, y))).contains(
                ((x as usize, y as usize), self.moves((x, y))[0]),
            )
    }
}

/// A square is exactly one distance from the start.
pub proof fn lemma_distance_unique(g: Seq<Seq<Square>>, src: (int, int), c: (int, int), d1: nat, d2: nat)
    requires
        at_distance(g, src, c, d1),
        at_distance(g, src, c, d2),
    ensures
        d1 == d2,
{
    if d1 < d2 {
        lemma_within_mono(g, src, c, d1, (d2 - 1) as nat);
    } else if d2 < d1 {
        lemma_within_mono(g, src, c, d2, (d1 - 1) as nat);
    }
}

/// The four neighbours of `p` with the moves that reach them: right, up,
/// left, down (coordinates wrap as unsigned numbers do).
pub fn get_neighbors(p: Coord) -> (v: Vec<(Coord, Move)>)
    ensures
        v@ == seq![
            ((p.0.wrapping_add(1), p.1), Move::R),
            ((p.0, p.1.wrapping_add(1)), Move::U),
            ((p.0.wrapping_sub(1), p.1), Move::L),
            ((p.0, p.1.wrapping_sub(1)), Move::D),
        ],
{
    let (x, y) = p;
    vec![((x.wrapping_add(1), y), Move::R), ((x, y.wrapping_add(1)), Move::U), ((x.wrapping_sub(1), y), Move::L), ((x, y.wrapping_sub(1)), Move::D)]
}

/// The square at `p`.
pub fn get_square(p: Coord, b: &Grid) -> (s: Square)
    requires
        inb(b@, p.0 as int, p.1 as int),
    ensures
        s == cell(b@, p.0 as int, p.1 as int),
{
    b.at(p)
}

/// The neighbours of `p` that the brushfire may enter, with the moves that
/// reach them, in the order right, up, left, down.
pub open spec fn passable_list(g: Seq<Seq<Square>>, p: Coord) -> Seq<(Coord, Move)> {
    seq![Move::R, Move::U, Move::L, Move::D].filter(
        |m: Move| is_step(m) && open_cell(g, (p.0 + delta(m).0, p.1 + delta(m).1)),
    ).map_values(|m: Move| (((p.0 + delta(m).0) as usize, (p.1 + delta(m).1) as usize), m))
}

/// The neighbours of `p` in the grid that the brushfire may enter, with the
/// moves that reach them, in the order right, up, left, down.
pub fn get_passable_neighbors(p: Coord, b: &Grid) -> (v: Vec<(Coord, Move)>)
    requires
        rect(b@),
        inb(b@, p.0 as int, p.1 as int),
    ensures
        v@ == passable_list(b@, p),
{
    let ns = get_neighbors(p);
    let ghost ms = seq![Move::R, Move::U, Move::L, Move::D];
    let ghost keep = |m: Move| is_step(m) && open_cell(b@, (p.0 + delta(m).0, p.1 + delta(m).1));
    let ghost f = |m: Move| (((p.0 + delta(m).0) as usize, (p.1 + delta(m).1) as usize), m);
    proof {
        b.lemma_lens_fit();
    }
    let mut v: Vec<(Coord, Move)> = Vec::new();
    let mut i: usize = 0;
    while i < 4
        invariant
            i <= 4,
            ns@.len() == 4,
            ms == seq![Move::R, Move::U, Move::L, Move::D],
            keep == (|m: Move| is_step(m) && open_cell(b@, (p.0 + delta(m).0, p.1 + delta(m).1))),
            f == (|m: Move| (((p.0 + delta(m).0) as usize, (p.1 + delta(m).1) as usize), m)),
            forall|k: int| 0 <= k < 4 ==> #[trigger] ns@[k].1 == ms[k],
            forall|k: int| 0 <= k < 4 ==> ns@[k].0 == (
                if ms[k] == Move::R { p.0.wrapping_add(1) } else if ms[k] == Move::L { p.0.wrapping_sub(1) } else { p.0 },
                if ms[k] == Move::U { p.1.wrapping_add(1) } else if ms[k] == Move::D { p.1.wrapping_sub(1) } else { p.1 },
            ),
            rect(b@),
            inb(b@, p.0 as int, p.1 as int),
            b@.len() <= usize::MAX,
            forall|r: int| 0 <= r < b@.len() ==> #[trigger] b@[r].len() <= usize::MAX,
            v@ == ms.take(i as int).filter(keep).map_values(f),
        decreases 4 - i,
    {
        let (l, m) = ns[i];
        let ok = b.contains(l) && match get_square(l, b) {
            Square::Empty | Square::Earth | Square::Lambda | Square::LiftO => true,
            _ => false,
        };
        let ghost prev = v@;
        if ok {
            v.push((l, m));
        }
        proof {
            reveal_with_fuel(Seq::<_>::filter, 1);
            let t = ms.take(i + 1);
            assert(t.drop_last() =~= ms.take(i as int));
            assert(t.last() == ms[i as int]);
            let c = (p.0 + delta(m).0, p.1 + delta(m).1);
            assert(ok == keep(m)) by {
                if m == Move::R {
                    assert(b@[0].len() <= usize::MAX);
                }
                if m == Move::U {
                    assert(b@.len() <= usize::MAX);
                }
            }
            if ok {
                assert(l == f(m).0);
                assert(ms.take(i as int).filter(keep).push(m).map_values(f) =~= prev.push(f(m)));
            }
        }
        i += 1;
    }
    proof {
        assert(ms.take(4) =~= ms);
    }
    v
}

/// `c` is one move away from `p`.
pub open spec fn adj(p: (int, int), c: (int, int)) -> bool {
    c == (p.0 + 1, p.1) || c == (p.0, p.1 + 1) || c == (p.0 - 1, p.1) || c == (p.0, p.1 - 1)
}

/// What the passable-neighbour list says: each entry is an enterable square
/// next to `p` with the move that reaches it, and every enterable square
/// next to `p` is an entry.
proof fn lemma_passable_list(p: Coord, g: Seq<Seq<Square>>, v: Seq<(Coord, Move)>)
    requires
        g.len() <= usize::MAX,
        forall|r: int| 0 <= r < g.len() ==> #[trigger] g[r].len() <= usize::MAX,
        v == seq![Move::R, Move::U, Move::L, Move::D].filter(
            |m: Move| is_step(m) && open_cell(g, (p.0 + delta(m).0, p.1 + delta(m).1)),
        ).map_values(|m: Move| (((p.0 + delta(m).0) as usize, (p.1 + delta(m).1) as usize), m)),
    ensures
        forall|k: int|
            0 <= k < v.len() ==> {
                &&& is_step((#[trigger] v[k]).1)
                &&& (v[k].0.0 as int, v[k].0.1 as int) == (p.0 + delta(v[k].1).0, p.1 + delta(v[k].1).1)
                &&& open_cell(g, (v[k].0.0 as int, v[k].0.1 as int))
            },
        forall|c: (int, int)|
            adj((p.0 as int, p.1 as int), c) && open_cell(g, c) ==> exists|k: int|
                0 <= k < v.len() && (#[trigger] v[k]).0.0 as int == c.0 && v[k].0.1 as int == c.1,
{
    let ms = seq![Move::R, Move::U, Move::L, Move::D];
    let keep = |m: Move| is_step(m) && open_cell(g, (p.0 + delta(m).0, p.1 + delta(m).1));
    let f = |m: Move| (((p.0 + delta(m).0) as usize, (p.1 + delta(m).1) as usize), m);
    let fs = ms.filter(keep);
    broadcast use vstd::seq_lib::group_filter_ensures;
    assert forall|k: int| 0 <= k < v.len() implies {
        &&& is_step((#[trigger] v[k]).1)
        &&& (v[k].0.0 as int, v[k].0.1 as int) == (p.0 + delta(v[k].1).0, p.1 + delta(v[k].1).1)
        &&& open_cell(g, (v[k].0.0 as int, v[k].0.1 as int))
    } by {
        assert(keep(fs[k]));
        assert(v[k] == f(fs[k]));
        let m = fs[k];
        let c = (p.0 + delta(m).0, p.1 + delta(m).1);
        assert(g[c.1 - 1].len() <= usize::MAX);
    }
    assert forall|c: (int, int)| adj((p.0 as int, p.1 as int), c) && open_cell(g, c) implies exists|k: int|
        0 <= k < v.len() && (#[trigger] v[k]).0.0 as int == c.0 && v[k].0.1 as int == c.1 by {
        let i: int = if c == (p.0 + 1, p.1 as int) {
            0
        } else if c == (p.0 as int, p.1 + 1) {
            1
        } else if c == (p.0 - 1, p.1 as int) {
            2
        } else {
            3
        };
        assert(keep(ms[i]));
        assert(fs.contains(ms[i]));
        let k = choose|k: int| 0 <= k < fs.len() && fs[k] == ms[i];
        assert(v[k] == f(ms[i]));
        assert(g[c.1 - 1].len() <= usize::MAX);
    }
}

/// The positions of a list of reached squares.
pub open spec fn coords(l: Seq<(Coord, Move)>) -> Seq<Coord> {
    l.map_values(|e: (Coord, Move)| e.0)
}

/// The squares of `l` reached in turn, each unless it was reached before
/// (in `seen`, or earlier in `l`).
#[verifier::opaque]
pub open spec fn fresh_of(seen: Set<Coord>, l: Seq<(Coord, Move)>) -> Seq<(Coord, Move)>
    decreases l.len(),
{
    if l.len() == 0 {
        Seq::empty()
    } else {
        let a = fresh_of(seen, l.drop_last());
        if seen.contains(l.last().0) || coords(a).contains(l.last().0) {
            a
        } else {
            a.push(l.last())
        }
    }
}

/// One round of the fire from the squares `ps`, in order: each reaches, in
/// the order right, up, left, down, its enterable neighbours not reached
/// before; each with the move that reached it.
#[verifier::opaque]
pub open spec fn spread(g: Seq<Seq<Square>>, seen: Set<Coord>, ps: Seq<Coord>) -> Seq<(Coord, Move)>
    decreases ps.len(),
{
    if ps.len() == 0 {
        Seq::empty()
    } else {
        let prev = spread(g, seen, ps.drop_last());
        prev + fresh_of(seen + coords(prev).to_set(), passable_list(g, ps.last()))
    }
}

/// The squares of the grid within `k` moves of `src`.
pub open spec fn reached(g: Seq<Seq<Square>>, src: (int, int), k: nat) -> Set<Coord> {
    Set::new(|c: Coord| inb(g, c.0 as int, c.1 as int) && within(g, src, (c.0 as int, c.1 as int), k))
}

/// The squares the fire from `src` first reaches in round `k`, in the order
/// it reaches them, each with the move that reached it (the start is
/// reached in round 0, by waiting).
#[verifier::opaque]
pub open spec fn layer(g: Seq<Seq<Square>>, src: (int, int), k: nat) -> Seq<(Coord, Move)>
    decreases k,
{
    if k == 0 {
        seq![((src.0 as usize, src.1 as usize), Move::W)]
    } else {
        spread(g, reached(g, src, (k - 1) as nat), coords(layer(g, src, (k - 1) as nat)))
    }
}

/// The move paired with square `c` in `l`.
pub open spec fn move_into(l: Seq<(Coord, Move)>, c: Coord) -> Move {
    choose|m: Move| l.contains((c, m))
}

/// The path by which the fire from `src` reached square `c` in round `d`:
/// the path to the square it came from, then the move that entered `c`.
pub open spec fn bfs_path(g: Seq<Seq<Square>>, src: (int, int), c: (int, int), d: nat) -> Seq<Move>
    decreases d,
{
    if d == 0 {
        Seq::empty()
    } else {
        let m = move_into(layer(g, src, d), (c.0 as usize, c.1 as usize));
        bfs_path(g, src, back(c, m), (d - 1) as nat).push(m)
    }
}

/// What `fresh_of` keeps is new: no square twice, none of `seen`.
proof fn lemma_fresh_of_new(seen: Set<Coord>, l: Seq<(Coord, Move)>)
    ensures
        coords(fresh_of(seen, l)).no_duplicates(),
        forall|i: int| 0 <= i < fresh_of(seen, l).len() ==> !seen.contains(#[trigger] fresh_of(seen, l)[i].0),
    decreases l.len(),
{
    reveal(fresh_of);
    if l.len() > 0 {
        lemma_fresh_of_new(seen, l.drop_last());
        let a = fresh_of(seen, l.drop_last());
        if !(seen.contains(l.last().0) || coords(a).contains(l.last().0)) {
            assert(coords(a.push(l.last())) =~= coords(a).push(l.last().0));
            assert forall|i: int, j: int| 0 <= i < coords(a).len() + 1 && 0 <= j < coords(a).len() + 1 && i != j
                implies coords(a).push(l.last().0)[i] != coords(a).push(l.last().0)[j] by {
                if i == coords(a).len() {
                    assert(coords(a)[j] == coords(a).push(l.last().0)[j]);
                } else if j == coords(a).len() {
                    assert(coords(a)[i] == coords(a).push(l.last().0)[i]);
                }
            }
            assert forall|i: int| 0 <= i < a.len() + 1 implies !seen.contains(#[trigger] a.push(l.last())[i].0) by {
                if i < a.len() {
                    assert(a.push(l.last())[i] == a[i]);
                }
            }
        }
    }
}

/// One round of the fire reaches no square twice, and none it reached
/// before.
proof fn lemma_spread_new(g: Seq<Seq<Square>>, seen: Set<Coord>, ps: Seq<Coord>)
    ensures
        coords(spread(g, seen, ps)).no_duplicates(),
        forall|i: int| 0 <= i < spread(g, seen, ps).len() ==> !seen.contains(#[trigger] spread(g, seen, ps)[i].0),
    decreases ps.len(),
{
    reveal(spread);
    if ps.len() > 0 {
        let prev = spread(g, seen, ps.drop_last());
        let seen2 = seen + coords(prev).to_set();
        let f = fresh_of(seen2, passable_list(g, ps.last()));
        lemma_spread_new(g, seen, ps.drop_last());
        lemma_fresh_of_new(seen2, passable_list(g, ps.last()));
        lemma_coords_add(prev, f);
        let all = coords(prev) + coords(f);
        assert forall|i: int, j: int| 0 <= i < all.len() && 0 <= j < all.len() && i != j implies all[i] != all[j] by {
            if i < prev.len() && j >= prev.len() {
                assert(all[i] == coords(prev)[i]);
                assert(coords(prev).to_set().contains(all[i]));
                assert(f[j - prev.len()].0 == all[j]);
            } else if j < prev.len() && i >= prev.len() {
                assert(all[j] == coords(prev)[j]);
                assert(coords(prev).to_set().contains(all[j]));
                assert(f[i - prev.len()].0 == all[i]);
            } else if i < prev.len() {
                assert(all[i] == coords(prev)[i] && all[j] == coords(prev)[j]);
            } else {
                assert(all[i] == coords(f)[i - prev.len()] && all[j] == coords(f)[j - prev.len()]);
            }
        }
        assert forall|i: int| 0 <= i < (prev + f).len() implies !seen.contains(#[trigger] (prev + f)[i].0) by {
            if i < prev.len() {
                assert((prev + f)[i] == prev[i]);
            } else {
                assert((prev + f)[i] == f[i - prev.len()]);
                assert(!seen2.contains(f[i - prev.len()].0));
            }
        }
    }
}

/// No square is reached twice in one round.
pub proof fn lemma_layer_distinct(g: Seq<Seq<Square>>, src: (int, int), k: nat)
    ensures
        coords(layer(g, src, k)).no_duplicates(),
{
    reveal(layer);
    if k == 0 {
        assert(coords(layer(g, src, 0)).len() == 1);
    } else {
        lemma_spread_new(g, reached(g, src, (k - 1) as nat), coords(layer(g, src, (k - 1) as nat)));
    }
}

/// In a list that names each square once, the move paired with a square is
/// the one it is listed with.
proof fn lemma_move_into(l: Seq<(Coord, Move)>, k: int)
    requires
        coords(l).no_duplicates(),
        0 <= k < l.len(),
    ensures
        move_into(l, l[k].0) == l[k].1,
{
    let c = l[k].0;
    assert(l.contains((c, l[k].1)));
    let m = move_into(l, c);
    assert(l.contains((c, m)));
    let j = choose|j: int| 0 <= j < l.len() && l[j] == (c, m);
    assert(coords(l)[j] == coords(l)[k]);
}

/// The squares of a visited table marked reached.
pub open spec fn seen_set(g: Seq<Seq<Square>>, v: Seq<Vec<(bool, Vec<Move>)>>) -> Set<Coord> {
    Set::new(|c: Coord| inb(g, c.0 as int, c.1 as int) && seen(v, (c.0 as int, c.1 as int)))
}

/// A boundary as squares with their moves.
pub open spec fn pairs(l: Seq<BoundaryElement>) -> Seq<(Coord, Move)> {
    l.map_values(|e: BoundaryElement| (e.0, e.1@[0]))
}

/// The squares of a boundary.
pub open spec fn bsquares(l: Seq<BoundaryElement>) -> Seq<Coord> {
    l.map_values(|e: BoundaryElement| e.0)
}

proof fn lemma_coords_add(a: Seq<(Coord, Move)>, b: Seq<(Coord, Move)>)
    ensures
        coords(a + b) == coords(a) + coords(b),
{
    assert(coords(a + b) =~= coords(a) + coords(b));
}

/// Unfolds `fresh_of` on a prefix one entry longer.
proof fn lemma_fresh_of_step(seen: Set<Coord>, l: Seq<(Coord, Move)>, n: int)
    requires
        0 <= n < l.len(),
    ensures
        fresh_of(seen, l.take(n + 1)) == if seen.contains(l[n].0) || coords(fresh_of(seen, l.take(n))).contains(l[n].0) {
            fresh_of(seen, l.take(n))
        } else {
            fresh_of(seen, l.take(n)).push(l[n])
        },
{
    reveal(fresh_of);
    assert(l.take(n + 1).drop_last() =~= l.take(n));
    assert(l.take(n + 1).last() == l[n]);
}

/// Unfolds `spread` on a prefix one square longer.
proof fn lemma_spread_step(g: Seq<Seq<Square>>, seen: Set<Coord>, ps: Seq<Coord>, n: int)
    requires
        0 <= n < ps.len(),
    ensures
        spread(g, seen, ps.take(n + 1)) == spread(g, seen, ps.take(n)) + fresh_of(
            seen + coords(spread(g, seen, ps.take(n))).to_set(),
            passable_list(g, ps[n]),
        ),
{
    reveal(spread);
    assert(ps.take(n + 1).drop_last() =~= ps.take(n));
    assert(ps.take(n + 1).last() == ps[n]);
}

/// The reached flag of square `c` in a visited table.
pub open spec fn seen(v: Seq<Vec<(bool, Vec<Move>)>>, c: (int, int)) -> bool {
    v[c.1 - 1]@[c.0 - 1].0
}

/// The entry of square `c` in a visited table.
pub open spec fn entry(v: Seq<Vec<(bool, Vec<Move>)>>, c: (int, int)) -> (bool, Seq<Move>) {
    (v[c.1 - 1]@[c.0 - 1].0, v[c.1 - 1]@[c.0 - 1].1@)
}

/// The coordinates of boundary element `i`.
pub open spec fn bc(b: Seq<BoundaryElement>, i: int) -> (int, int) {
    (b[i].0.0 as int, b[i].0.1 as int)
}

/// A square next to one of the first `n` boundary squares.
pub open spec fn near_boundary(b: Seq<BoundaryElement>, n: int, c: (int, int)) -> bool {
    exists|j: int| 0 <= j < n && #[trigger] adj(bc(b, j), c)
}

/// Spreads the fire one round: every enterable square next to a boundary
/// square that was not reached yet is reached, by the move from the first
/// such boundary square (in order, trying right, up, left, down). Returns
/// the newly reached squares, in the order reached.
fn propagate(
    b: &Grid,
    boundary_list: &Vec<BoundaryElement>,
    visited: &mut Vec<Vec<(bool, Vec<Move>)>>,
) -> (ret: Vec<BoundaryElement>)
    requires
        rect(b@),
        old(visited)@.len() == b@.len(),
        forall|y: int| 0 <= y < b@.len() ==> (#[trigger] old(visited)@[y])@.len() == b@[0].len(),
        forall|i: int| 0 <= i < boundary_list@.len() ==> inb(b@, (#[trigger] bc(boundary_list@, i)).0, bc(boundary_list@, i).1),
    ensures
        final(visited)@.len() == b@.len(),
        forall|y: int| 0 <= y < b@.len() ==> (#[trigger] final(visited)@[y])@.len() == b@[0].len(),
        forall|x: int, y: int|
            #![trigger seen(final(visited)@, (x, y))]
            inb(b@, x, y) ==> (seen(final(visited)@, (x, y)) <==> (seen(old(visited)@, (x, y)) || (
            open_cell(b@, (x, y)) && near_boundary(boundary_list@, boundary_list@.len() as int, (x, y))))),
        forall|x: int, y: int|
            #![trigger entry(final(visited)@, (x, y))]
            inb(b@, x, y) && seen(old(visited)@, (x, y)) ==> entry(final(visited)@, (x, y)) == entry(old(visited)@, (x, y)),
        forall|x: int, y: int|
            #![trigger entry(final(visited)@, (x, y))]
            inb(b@, x, y) && seen(final(visited)@, (x, y)) && !seen(old(visited)@, (x, y)) ==> {
                let m = entry(final(visited)@, (x, y)).1;
                &&& m.len() == 1
                &&& is_step(m[0])
                &&& exists|j: int| 0 <= j < boundary_list@.len() && #[trigger] bc(boundary_list@, j) == back((x, y), m[0])
            },
        forall|k: int|
            0 <= k < ret@.len() ==> {
                &&& inb(b@, (#[trigger] bc(ret@, k)).0, bc(ret@, k).1)
                &&& seen(final(visited)@, bc(ret@, k))
                &&& !seen(old(visited)@, bc(ret@, k))
            },
        forall|k: int, j: int| 0 <= k < ret@.len() && 0 <= j < ret@.len() && k != j ==> #[trigger] bc(ret@, k) != #[trigger] bc(ret@, j),
        forall|x: int, y: int|
            #![trigger seen(final(visited)@, (x, y))]
            inb(b@, x, y) && seen(final(visited)@, (x, y)) && !seen(old(visited)@, (x, y)) ==> exists|k: int|
                0 <= k < ret@.len() && #[trigger] bc(ret@, k) == (x, y),
        pairs(ret@) == spread(b@, seen_set(b@, old(visited)@), bsquares(boundary_list@)),
        forall|k: int|
            0 <= k < ret@.len() ==> (#[trigger] ret@[k]).1@.len() == 1 && entry(final(visited)@, bc(ret@, k)).1 == ret@[k].1@,
{
    let ghost v0 = visited@;
    let ghost bl = boundary_list@;
    let ghost s0 = seen_set(b@, v0);
    let ghost bsq = bsquares(bl);
    proof {
        b.lemma_lens_fit();
    }
    let mut ret_list: Vec<BoundaryElement> = Vec::new();
    proof {
        reveal(spread);
        assert(pairs(ret_list@) =~= spread(b@, s0, bsq.take(0)));
    }
    let mut bi: usize = 0;
    while bi < boundary_list.len()
        invariant
            rect(b@),
            b@.len() <= usize::MAX,
            forall|r: int| 0 <= r < b@.len() ==> #[trigger] b@[r].len() <= usize::MAX,
            bl == boundary_list@,
            bi <= bl.len(),
            forall|i: int| 0 <= i < bl.len() ==> inb(b@, (#[trigger] bc(bl, i)).0, bc(bl, i).1),
            visited@.len() == b@.len(),
            forall|y: int| 0 <= y < b@.len() ==> (#[trigger] visited@[y])@.len() == b@[0].len(),
            forall|x: int, y: int|
                #![trigger seen(visited@, (x, y))]
                inb(b@, x, y) ==> (seen(visited@, (x, y)) <==> (seen(v0, (x, y)) || (open_cell(b@, (x, y))
                    && near_boundary(bl, bi as int, (x, y))))),
            forall|x: int, y: int|
                #![trigger entry(visited@, (x, y))]
                inb(b@, x, y) && seen(v0, (x, y)) ==> entry(visited@, (x, y)) == entry(v0, (x, y)),
            forall|x: int, y: int|
                #![trigger entry(visited@, (x, y))]
                inb(b@, x, y) && seen(visited@, (x, y)) && !seen(v0, (x, y)) ==> {
                    let m = entry(visited@, (x, y)).1;
                    &&& m.len() == 1
                    &&& is_step(m[0])
                    &&& exists|j: int| 0 <= j < bl.len() && #[trigger] bc(bl, j) == back((x, y), m[0])
                },
            forall|k: int|
                0 <= k < ret_list@.len() ==> {
                    &&& inb(b@, (#[trigger] bc(ret_list@, k)).0, bc(ret_list@, k).1)
                    &&& seen(visited@, bc(ret_list@, k))
                    &&& !seen(v0, bc(ret_list@, k))
                },
            forall|k: int, j: int| 0 <= k < ret_list@.len() && 0 <= j < ret_list@.len() && k != j ==> #[trigger] bc(ret_list@, k) != #[trigger] bc(ret_list@, j),
            forall|x: int, y: int|
                #![trigger seen(visited@, (x, y))]
                inb(b@, x, y) && seen(visited@, (x, y)) && !seen(v0, (x, y)) ==> exists|k: int|
                    0 <= k < ret_list@.len() && #[trigger] bc(ret_list@, k) == (x, y),
            s0 == seen_set(b@, v0),
            bsq == bsquares(bl),
            pairs(ret_list@) == spread(b@, s0, bsq.take(bi as int)),
            forall|k: int|
                0 <= k < ret_list@.len() ==> (#[trigger] ret_list@[k]).1@.len() == 1 && entry(visited@, bc(ret_list@, k)).1
                    == ret_list@[k].1@,
        decreases bl.len() - bi,
    {
        let p = boundary_list[bi].0;
        let ghost pc = (p.0 as int, p.1 as int);
        assert(pc == bc(bl, bi as int));
        let ns = get_passable_neighbors(p, b);
        proof {
            lemma_passable_list(p, b@, ns@);
        }
        let ghost vb = visited@;
        let ghost prev = spread(b@, s0, bsq.take(bi as int));
        proof {
            reveal(fresh_of);
            assert(ns@.take(0) =~= Seq::<(Coord, Move)>::empty());
            assert(pairs(ret_list@) =~= prev + Seq::<(Coord, Move)>::empty());
        }
        let mut ni: usize = 0;
        while ni < ns.len()
            invariant
                rect(b@),
                b@.len() <= usize::MAX,
                forall|r: int| 0 <= r < b@.len() ==> #[trigger] b@[r].len() <= usize::MAX,
                bl == boundary_list@,
                bi < bl.len(),
                pc == bc(bl, bi as int),
                ni <= ns@.len(),
                forall|k: int|
                    0 <= k < ns@.len() ==> {
                        &&& is_step((#[trigger] ns@[k]).1)
                        &&& (ns@[k].0.0 as int, ns@[k].0.1 as int) == (pc.0 + delta(ns@[k].1).0, pc.1 + delta(ns@[k].1).1)
                        &&& open_cell(b@, (ns@[k].0.0 as int, ns@[k].0.1 as int))
                    },
                visited@.len() == b@.len(),
                forall|y: int| 0 <= y < b@.len() ==> (#[trigger] visited@[y])@.len() == b@[0].len(),
                forall|x: int, y: int|
                    #![trigger seen(visited@, (x, y))]
                    inb(b@, x, y) ==> (seen(visited@, (x, y)) <==> (seen(vb, (x, y)) || exists|k: int|
                        0 <= k < ni && (#[trigger] ns@[k]).0.0 as int == x && ns@[k].0.1 as int == y)),
                forall|x: int, y: int|
                    #![trigger seen(vb, (x, y))]
                    inb(b@, x, y) ==> (seen(vb, (x, y)) <==> (seen(v0, (x, y)) || (open_cell(b@, (x, y))
                        && near_boundary(bl, bi as int, (x, y))))),
                forall|x: int, y: int|
                    #![trigger entry(visited@, (x, y))]
                    inb(b@, x, y) && seen(vb, (x, y)) ==> entry(visited@, (x, y)) == entry(vb, (x, y)),
                forall|x: int, y: int|
                    #![trigger entry(vb, (x, y))]
                    inb(b@, x, y) && seen(v0, (x, y)) ==> entry(vb, (x, y)) == entry(v0, (x, y)),
                forall|x: int, y: int|
                    #![trigger entry(visited@, (x, y))]
                    inb(b@, x, y) && seen(visited@, (x, y)) && !seen(v0, (x, y)) ==> {
                        let m = entry(visited@, (x, y)).1;
                        &&& m.len() == 1
                        &&& is_step(m[0])
                        &&& exists|j: int| 0 <= j < bl.len() && #[trigger] bc(bl, j) == back((x, y), m[0])
                    },
                forall|k: int|
                    0 <= k < ret_list@.len() ==> {
                        &&& inb(b@, (#[trigger] bc(ret_list@, k)).0, bc(ret_list@, k).1)
                        &&& seen(visited@, bc(ret_list@, k))
                        &&& !seen(v0, bc(ret_list@, k))
                    },
                forall|k: int, j: int| 0 <= k < ret_list@.len() && 0 <= j < ret_list@.len() && k != j ==> #[trigger] bc(ret_list@, k) != #[trigger] bc(ret_list@, j),
                forall|x: int, y: int|
                    #![trigger seen(visited@, (x, y))]
                    inb(b@, x, y) && seen(visited@, (x, y)) && !seen(v0, (x, y)) ==> exists|k: int|
                        0 <= k < ret_list@.len() && #[trigger] bc(ret_list@, k) == (x, y),
                s0 == seen_set(b@, v0),
                ns@ == passable_list(b@, p),
                pairs(ret_list@) == prev + fresh_of(s0 + coords(prev).to_set(), ns@.take(ni as int)),
                forall|k: int|
                    0 <= k < ret_list@.len() ==> (#[trigger] ret_list@[k]).1@.len() == 1 && entry(visited@, bc(ret_list@, k)).1
                        == ret_list@[k].1@,
            decreases ns@.len() - ni,
        {
            let (neighbor, m) = ns[ni];
            let (x, y) = neighbor;
            let ghost nc = (x as int, y as int);
            assert(open_cell(b@, nc));
            assert(visited@[y - 1]@.len() == b@[0].len());
            assert(b@[y - 1].len() == b@[0].len());
            let ghost before = visited@;
            let ghost rb = ret_list@;
            let ghost fresh_part = fresh_of(s0 + coords(prev).to_set(), ns@.take(ni as int));
            proof {
                assert(ns@[ni as int] == (neighbor, m));
                let seen_x = s0 + coords(prev).to_set();
                lemma_coords_add(prev, fresh_part);
                if seen(visited@, nc) {
                    if seen(v0, nc) {
                        assert(s0.contains(neighbor));
                    } else {
                        let k = choose|k: int| 0 <= k < ret_list@.len() && #[trigger] bc(ret_list@, k) == nc;
                        assert(ret_list@[k].0 == neighbor);
                        assert(coords(pairs(ret_list@))[k] == neighbor);
                        let cp = coords(pairs(ret_list@));
                        if k < prev.len() {
                            assert(coords(prev)[k] == neighbor);
                            assert(coords(prev).to_set().contains(neighbor));
                        } else {
                            assert(coords(fresh_part)[k - prev.len()] == neighbor);
                        }
                    }
                    assert(seen_x.contains(neighbor) || coords(fresh_part).contains(neighbor));
                } else {
                    if s0.contains(neighbor) {
                        assert(seen(v0, nc));
                        assert(seen(vb, nc));
                    }
                    if coords(prev).to_set().contains(neighbor) {
                        let i = choose|i: int| 0 <= i < coords(prev).len() && coords(prev)[i] == neighbor;
                        assert(coords(pairs(ret_list@))[i] == neighbor);
                        assert(bc(ret_list@, i) == nc);
                    }
                    if coords(fresh_part).contains(neighbor) {
                        let i = choose|i: int| 0 <= i < coords(fresh_part).len() && coords(fresh_part)[i] == neighbor;
                        assert(coords(pairs(ret_list@))[prev.len() + i] == neighbor);
                        assert(bc(ret_list@, prev.len() + i) == nc);
                    }
                    assert(!seen_x.contains(neighbor) && !coords(fresh_part).contains(neighbor));
                }
                lemma_fresh_of_step(seen_x, ns@, ni as int);
            }
            let fresh = !visited[y - 1][x - 1].0;
            if fresh {
                ret_list.push((neighbor, vec![m]));
                visited[y - 1][x - 1] = (true, vec![m]);
            }
            proof {
                if fresh {
                    assert(pairs(ret_list@) =~= pairs(rb).push((neighbor, m)));
                } else {
                    assert(ret_list@ == rb);
                }
                assert forall|k: int| 0 <= k < ret_list@.len() implies (#[trigger] ret_list@[k]).1@.len() == 1 && entry(visited@, bc(ret_list@, k)).1
                    == ret_list@[k].1@ by {
                    if k < rb.len() {
                        assert(ret_list@[k] == rb[k]);
                        let c = bc(rb, k);
                        assert(seen(before, c));
                        if fresh {
                            assert(c != nc);
                        }
                        assert(entry(visited@, c) == entry(before, c)) by {
                            if fresh && c.1 != y {
                                assert(visited@[c.1 - 1] == before[c.1 - 1]);
                            }
                        }
                    } else {
                        assert(bc(ret_list@, k) == nc);
                    }
                }
            }
            proof {
                assert forall|xx: int, yy: int| inb(b@, xx, yy) implies #[trigger] entry(visited@, (xx, yy)) == if fresh && (xx, yy) == nc {
                    (true, seq![m])
                } else {
                    entry(before, (xx, yy))
                } by {
                    if fresh && yy != y {
                        assert(visited@[yy - 1] == before[yy - 1]);
                    }
                }
                if fresh {
                    assert(back(nc, m) == pc);
                    assert(bc(ret_list@, rb.len() as int) == nc);
                    assert forall|k: int| 0 <= k < rb.len() implies #[trigger] bc(ret_list@, k) == bc(rb, k) by {}
                    if seen(v0, nc) {
                        assert(seen(vb, nc));
                        assert(seen(before, nc));
                    }
                    assert forall|k: int| 0 <= k < ret_list@.len() implies {
                        &&& inb(b@, (#[trigger] bc(ret_list@, k)).0, bc(ret_list@, k).1)
                        &&& seen(visited@, bc(ret_list@, k))
                        &&& !seen(v0, bc(ret_list@, k))
                    } by {
                        if k < rb.len() {
                            let c = bc(rb, k);
                            assert(seen(before, c));
                            assert(c != nc);
                            assert(entry(visited@, c) == entry(before, c));
                        }
                    }
                }
                assert forall|xx: int, yy: int| inb(b@, xx, yy) implies (seen(visited@, (xx, yy)) <==> (seen(vb, (xx, yy)) || exists|k: int|
                        0 <= k < ni + 1 && (#[trigger] ns@[k]).0.0 as int == xx && ns@[k].0.1 as int == yy)) by {
                    let c = (xx, yy);
                    assert(entry(visited@, c) == if fresh && c == nc { (true, seq![m]) } else { entry(before, c) });
                    assert(seen(before, c) <==> (seen(vb, c) || exists|k: int|
                        0 <= k < ni && (#[trigger] ns@[k]).0.0 as int == xx && ns@[k].0.1 as int == yy));
                    if c == nc {
                        assert(ns@[ni as int].0.0 as int == xx && ns@[ni as int].0.1 as int == yy);
                    } else {
                        if exists|k: int| 0 <= k < ni + 1 && (#[trigger] ns@[k]).0.0 as int == xx && ns@[k].0.1 as int == yy {
                            let k = choose|k: int| 0 <= k < ni + 1 && (#[trigger] ns@[k]).0.0 as int == xx && ns@[k].0.1 as int == yy;
                            assert(k != ni);
                        }
                        if exists|k: int| 0 <= k < ni && (#[trigger] ns@[k]).0.0 as int == xx && ns@[k].0.1 as int == yy {
                            let k = choose|k: int| 0 <= k < ni && (#[trigger] ns@[k]).0.0 as int == xx && ns@[k].0.1 as int == yy;
                            assert(0 <= k < ni + 1);
                        }
                    }
                }
                assert forall|xx: int, yy: int|
                    inb(b@, xx, yy) && seen(vb, (xx, yy)) implies #[trigger] entry(visited@, (xx, yy)) == entry(vb, (xx, yy)) by {
                    let c = (xx, yy);
                    assert(seen(before, c) <==> (seen(vb, c) || exists|k: int|
                        0 <= k < ni && (#[trigger] ns@[k]).0.0 as int == xx && ns@[k].0.1 as int == yy));
                    assert(entry(before, c) == entry(vb, c));
                    assert(entry(visited@, c) == if fresh && c == nc { (true, seq![m]) } else { entry(before, c) });
                }
                assert forall|xx: int, yy: int|
                    inb(b@, xx, yy) && #[trigger] seen(visited@, (xx, yy)) && !seen(v0, (xx, yy)) implies exists|k: int|
                        0 <= k < ret_list@.len() && #[trigger] bc(ret_list@, k) == (xx, yy) by {
                    let c = (xx, yy);
                    assert(entry(visited@, c) == if fresh && c == nc { (true, seq![m]) } else { entry(before, c) });
                    if !(fresh && c == nc) {
                        assert(seen(before, c));
                        let k = choose|k: int| 0 <= k < rb.len() && #[trigger] bc(rb, k) == c;
                        if fresh {
                            assert(bc(ret_list@, k) == bc(rb, k));
                        }
                    } else {
                        assert(bc(ret_list@, rb.len() as int) == c);
                    }
                }
            }
            ni += 1;
        }
        proof {
            assert(ns@.take(ns@.len() as int) =~= ns@);
            assert(bsq[bi as int] == p);
            lemma_spread_step(b@, s0, bsq, bi as int);
            assert forall|xx: int, yy: int| inb(b@, xx, yy) implies (seen(visited@, (xx, yy)) <==> (seen(v0, (xx, yy)) || (open_cell(b@, (xx, yy))
                && near_boundary(bl, bi + 1, (xx, yy))))) by {
                let c = (xx, yy);
                if open_cell(b@, c) && near_boundary(bl, bi + 1, c) && !near_boundary(bl, bi as int, c) {
                    let j = choose|j: int| 0 <= j < bi + 1 && #[trigger] adj(bc(bl, j), c);
                    assert(j == bi);
                    assert(adj((p.0 as int, p.1 as int), c));
                }
                if seen(visited@, c) && !seen(vb, c) {
                    let k = choose|k: int| 0 <= k < ni && (#[trigger] ns@[k]).0.0 as int == xx && ns@[k].0.1 as int == yy;
                    assert(adj(bc(bl, bi as int), c));
                }
            }
        }
        bi += 1;
    }
    proof {
        assert(bsq.take(bl.len() as int) =~= bsq);
    }
    ret_list
}

/// The targets' coordinates lie in the grid.
pub open spec fn dests_in<T: Target>(g: Seq<Seq<Square>>, dests: Seq<Option<T>>) -> bool {
    forall|i: int|
        0 <= i < dests.len() && (#[trigger] dests[i]) is Some ==> inb(
            g,
            dests[i]->0.spec_coord().0 as int,
            dests[i]->0.spec_coord().1 as int,
        )
}

/// The square of target `i`.
pub open spec fn dest_sq<T: Target>(dests: Seq<Option<T>>, i: int) -> (int, int) {
    (dests[i]->0.spec_coord().0 as int, dests[i]->0.spec_coord().1 as int)
}

/// Target `i` is present and the fire reached its square.
pub open spec fn dest_seen<T: Target>(dests: Seq<Option<T>>, i: int, v: Seq<Vec<(bool, Vec<Move>)>>) -> bool {
    0 <= i < dests.len() && dests[i] is Some && seen(v, dest_sq(dests, i))
}

/// The first present target whose square was reached, if any.
pub fn winner<T: Target>(dests: &[Option<T>], visited: &Vec<Vec<(bool, Vec<Move>)>>) -> (w: Option<usize>)
    requires
        forall|i: int|
            0 <= i < dests@.len() && (#[trigger] dests@[i]) is Some ==> {
                let c = dests@[i]->0.spec_coord();
                1 <= c.1 <= visited@.len() && 1 <= c.0 <= visited@[c.1 - 1]@.len()
            },
    ensures
        w matches Some(i) ==> dest_seen(dests@, i as int, visited@)
            && forall|j: int| 0 <= j < i ==> !#[trigger] dest_seen(dests@, j, visited@),
        w is None ==> forall|j: int| 0 <= j < dests@.len() ==> !#[trigger] dest_seen(dests@, j, visited@),
{
    let mut i: usize = 0;
    while i < dests.len()
        invariant
            i <= dests@.len(),
            forall|j: int|
                0 <= j < dests@.len() && (#[trigger] dests@[j]) is Some ==> {
                    let c = dests@[j]->0.spec_coord();
                    1 <= c.1 <= visited@.len() && 1 <= c.0 <= visited@[c.1 - 1]@.len()
                },
            forall|j: int| 0 <= j < i ==> !#[trigger] dest_seen(dests@, j, visited@),
        decreases dests@.len() - i,
    {
        match &dests[i] {
            Some(p) => {
                let (x, y) = p.coord();
                let (cond, _) = &visited[y - 1][x - 1];
                if *cond {
                    return Some(i);
                }
            },
            None => {},
        }
        i += 1;
    }
    None
}

/// How many times `m` occurs in `l`.
pub open spec fn count_of(l: Seq<Move>, m: Move) -> nat
    decreases l.len(),
{
    if l.len() == 0 {
        0
    } else {
        count_of(l.drop_last(), m) + if l.last() == m { 1nat } else { 0nat }
    }
}

/// The net shift of the moves in `l`, right and up, as unsigned numbers
/// (a net shift left or down wraps around).
pub fn compute_delta(l: &Vec<Move>) -> (d: (usize, usize))
    ensures
        d.0 == vstd::wrapping::usize_specs::wrapping_sub(count_of(l@, Move::R) as usize, count_of(l@, Move::L) as usize),
        d.1 == vstd::wrapping::usize_specs::wrapping_sub(count_of(l@, Move::U) as usize, count_of(l@, Move::D) as usize),
{
    let mut r: usize = 0;
    let mut lf: usize = 0;
    let mut u: usize = 0;
    let mut dn: usize = 0;
    let mut i: usize = 0;
    while i < l.len()
        invariant
            i <= l@.len(),
            r == count_of(l@.take(i as int), Move::R),
            lf == count_of(l@.take(i as int), Move::L),
            u == count_of(l@.take(i as int), Move::U),
            dn == count_of(l@.take(i as int), Move::D),
            r + lf + u + dn <= i,
        decreases l@.len() - i,
    {
        proof {
            assert(l@.take(i + 1).drop_last() =~= l@.take(i as int));
            assert(l@.take(i + 1).last() == l@[i as int]);
        }
        match l[i] {
            Move::R => r += 1,
            Move::L => lf += 1,
            Move::U => u += 1,
            Move::D => dn += 1,
            _ => {},
        }
        i += 1;
    }
    proof {
        assert(l@.take(i as int) =~= l@);
    }
    (r.wrapping_sub(lf), u.wrapping_sub(dn))
}

/// The opposite move: up and down, left and right swapped (waiting and
/// aborting stay as they are).
pub open spec fn inverted(m: Move) -> Move {
    match m {
        Move::U => Move::D,
        Move::D => Move::U,
        Move::L => Move::R,
        Move::R => Move::L,
        x => x,
    }
}

/// The opposite move (waiting and aborting stay as they are).
pub fn invert_move(m: Move) -> (r: Move)
    ensures
        r == inverted(m),
{
    match m {
        Move::U => Move::D,
        Move::D => Move::U,
        Move::L => Move::R,
        Move::R => Move::L,
        x => x,
    }
}

/// The path by which the fire reached square `c`: read the move that
/// entered each square, back to the start.
#[verifier::rlimit(80)]
#[verifier::spinoff_prover]
fn build_path_from(c: Coord, ps: &PathState, Ghost(g): Ghost<Seq<Seq<Square>>>, Ghost(src): Ghost<(int, int)>) -> (p: Path)
    requires
        ps.wf(g, src),
        inb(g, c.0 as int, c.1 as int),
        ps.vis((c.0 as int, c.1 as int)),
    ensures
        p@.len() == ps.dep((c.0 as int, c.1 as int)),
        walk_ok(g, src, p@),
        walk_end(src, p@) == (c.0 as int, c.1 as int),
        p@ == bfs_path(g, src, (c.0 as int, c.1 as int), ps.dep((c.0 as int, c.1 as int))),
    decreases ps.dep((c.0 as int, c.1 as int)),
{
    let (x, y) = c;
    let ghost cc = (x as int, y as int);
    proof {
        assert(ps.reached_ok(g, src, cc));
        assert(ps.visited@[y - 1]@.len() == g[0].len());
        assert(g[y - 1].len() == g[0].len());
    }
    let l = &ps.visited[y - 1][x - 1].1;
    if l.len() == 1 && l[0] == Move::W {
        proof {
            if cc != src {
                assert(is_step(l@[0]));
            }
        }
        return Vec::new();
    }
    proof {
        assert(cc != src);
    }
    let (dx, dy) = compute_delta(l);
    let ghost m = l@[0];
    let ghost pc = back(cc, m);
    proof {
        lemma_entering_move(g, src, ps, cc);
    }
    proof {
        reveal_with_fuel(count_of, 2);
        assert(l@.drop_last() =~= Seq::<Move>::empty());
        ps_lemma_coords(g, ps, src);
    }
    let px = x.wrapping_sub(dx);
    let py = y.wrapping_sub(dy);
    proof {
        assert(px as int == pc.0 && py as int == pc.1);
    }
    let mut p = build_path_from((px, py), ps, Ghost(g), Ghost(src));
    let mut lstack = l.clone();
    proof {
        assert(lstack@ == l@) by {
            assert(lstack@.len() == 1);
        }
    }
    let ghost pre = p@;
    p.append(&mut lstack);
    proof {
        assert(p@ == pre.push(m));
        assert(p@.drop_last() =~= pre);
    }
    p
}

/// A reached square other than the start was entered by the move its
/// layer gives it.
proof fn lemma_entering_move(g: Seq<Seq<Square>>, src: (int, int), ps: &PathState, c: (int, int))
    requires
        ps.wf(g, src),
        inb(g, c.0, c.1),
        ps.vis(c),
        c != src,
    ensures
        move_into(layer(g, src, ps.dep(c)), (c.0 as usize, c.1 as usize)) == ps.moves(c)[0],
{
    let l = layer(g, src, ps.dep(c));
    let e = ((c.0 as usize, c.1 as usize), ps.moves(c)[0]);
    assert(l.contains(e));
    let k = choose|k: int| 0 <= k < l.len() && l[k] == e;
    lemma_layer_distinct(g, src, ps.dep(c));
    lemma_move_into(l, k);
}

/// The sizes of a well-formed brushfire's grid fit in a `usize`.
proof fn ps_lemma_coords(g: Seq<Seq<Square>>, ps: &PathState, src: (int, int))
    requires
        ps.wf(g, src),
    ensures
        g.len() <= usize::MAX,
        g[0].len() <= usize::MAX,
{
    assert(ps.visited@.len() == ps.visited.len());
    assert(ps.visited@[0]@.len() == ps.visited@[0].len());
}

/// The path by which the fire reached target `t`.
pub fn build_path<T: Target>(t: &T, ps: &PathState, Ghost(g): Ghost<Seq<Seq<Square>>>, Ghost(src): Ghost<(int, int)>) -> (p: Path)
    requires
        ps.wf(g, src),
        inb(g, t.spec_coord().0 as int, t.spec_coord().1 as int),
        ps.vis((t.spec_coord().0 as int, t.spec_coord().1 as int)),
    ensures
        p@.len() == ps.dep((t.spec_coord().0 as int, t.spec_coord().1 as int)),
        walk_ok(g, src, p@),
        walk_end(src, p@) == (t.spec_coord().0 as int, t.spec_coord().1 as int),
        p@ == bfs_path(
            g,
            src,
            (t.spec_coord().0 as int, t.spec_coord().1 as int),
            ps.dep((t.spec_coord().0 as int, t.spec_coord().1 as int)),
        ),
{
    build_path_from(t.coord(), ps, Ghost(g), Ghost(src))
}

/// The path by which the fire reached `p`, each move inverted.
pub fn build_path_backwards(p: Coord, ps: &PathState, Ghost(g): Ghost<Seq<Seq<Square>>>, Ghost(src): Ghost<(int, int)>) -> (r: Path)
    requires
        ps.wf(g, src),
        inb(g, p.0 as int, p.1 as int),
        ps.vis((p.0 as int, p.1 as int)),
    ensures
        exists|fwd: Seq<Move>|
            walk_ok(g, src, fwd) && walk_end(src, fwd) == (p.0 as int, p.1 as int) && fwd.len()
                == ps.dep((p.0 as int, p.1 as int)) && fwd == bfs_path(g, src, (p.0 as int, p.1 as int), fwd.len())
                && r@ == fwd.map_values(|m: Move| inverted(m)),
{
    let fwd = build_path(&p, ps, Ghost(g), Ghost(src));
    let mut r: Path = Vec::new();
    let mut i: usize = 0;
    while i < fwd.len()
        invariant
            i <= fwd@.len(),
            r@ == fwd@.take(i as int).map_values(|m: Move| inverted(m)),
        decreases fwd@.len() - i,
    {
        r.push(invert_move(fwd[i]));
        proof {
            assert(fwd@.take(i + 1) =~= fwd@.take(i as int).push(fwd@[i as int]));
            assert(r@ =~= fwd@.take(i + 1).map_values(|m: Move| inverted(m)));
        }
        i += 1;
    }
    proof {
        assert(fwd@.take(i as int) =~= fwd@);
    }
    r
}

/// The depths after a round: the old ones, and `round + 1` for squares the
/// round reached.
pub open spec fn next_depth(
    g: Seq<Seq<Square>>,
    ps0: &PathState,
    v1: Seq<Vec<(bool, Vec<Move>)>>,
) -> Map<(int, int), nat> {
    Map::new(
        |c: (int, int)| ps0.depth@.dom().contains(c) || (inb(g, c.0, c.1) && seen(v1, c)),
        |c: (int, int)| if ps0.depth@.dom().contains(c) { ps0.depth@[c] } else { ps0.round@ + 1 },
    )
}

/// After a round of `propagate`, the boundary is the next layer of the fire,
/// and each newly reached square is entered by the move its layer gives it.
proof fn lemma_next_layer(g: Seq<Seq<Square>>, src: (int, int), ps0: &PathState, ps1: &PathState)
    requires
        ps0.wf_reach(g, src),
        ps0.wf_layers(g, src),
        ps1.round@ == ps0.round@ + 1,
        ps1.depth@ == next_depth(g, ps0, ps1.visited@),
        forall|x: int, y: int|
            #![trigger entry(ps1.visited@, (x, y))]
            inb(g, x, y) && seen(ps0.visited@, (x, y)) ==> entry(ps1.visited@, (x, y)) == entry(ps0.visited@, (x, y)),
        forall|x: int, y: int|
            #![trigger seen(ps1.visited@, (x, y))]
            inb(g, x, y) && seen(ps1.visited@, (x, y)) && !seen(ps0.visited@, (x, y)) ==> exists|k: int|
                0 <= k < ps1.boundary@.len() && #[trigger] bc(ps1.boundary@, k) == (x, y),
        pairs(ps1.boundary@) == spread(g, seen_set(g, ps0.visited@), bsquares(ps0.boundary@)),
        forall|k: int|
            0 <= k < ps1.boundary@.len() ==> (#[trigger] ps1.boundary@[k]).1@.len() == 1 && entry(ps1.visited@, bc(ps1.boundary@, k)).1
                == ps1.boundary@[k].1@,
    ensures
        pairs(ps1.boundary@) == layer(g, src, ps1.round@),
        forall|x: int, y: int|
            #![trigger ps1.vis((x, y))]
            inb(g, x, y) && ps1.vis((x, y)) && (x, y) != src ==> layer(g, src, ps1.dep((x, y))).contains(
                ((x as usize, y as usize), ps1.moves((x, y))[0]),
            ),
{
    reveal(layer);
    let r = ps0.round@;
    let v0 = ps0.visited@;
    let v1 = ps1.visited@;
    let b0 = ps0.boundary@;
    let b1 = ps1.boundary@;
    assert(seen_set(g, v0) =~= reached(g, src, r)) by {
        assert forall|c: Coord| seen_set(g, v0).contains(c) <==> reached(g, src, r).contains(c) by {
            let cc = (c.0 as int, c.1 as int);
            if inb(g, cc.0, cc.1) {
                assert(seen(v0, cc) == ps0.vis(cc));
            }
        }
    }
    assert(bsquares(b0) =~= coords(layer(g, src, r))) by {
        assert(coords(pairs(b0)) =~= bsquares(b0));
    }
    assert(pairs(b1) == layer(g, src, ps1.round@));
    assert forall|x: int, y: int| inb(g, x, y) && #[trigger] ps1.vis((x, y)) && (x, y) != src implies layer(g, src, ps1.dep((x, y))).contains(
        ((x as usize, y as usize), ps1.moves((x, y))[0]),
    ) by {
        let c = (x, y);
        assert(seen(v1, c) == ps1.vis(c));
        if seen(v0, c) {
            assert(ps0.vis(c));
            assert(entry(v1, c) == entry(v0, c));
            assert(ps1.moves(c) == ps0.moves(c));
            assert(ps0.depth@.dom().contains(c));
            assert(ps1.dep(c) == ps0.dep(c));
        } else {
            let k = choose|k: int| 0 <= k < b1.len() && #[trigger] bc(b1, k) == c;
            assert(b1[k].1@.len() == 1);
            assert(ps1.moves(c) == entry(v1, c).1);
            assert(!ps0.vis(c));
            assert(!ps0.depth@.dom().contains(c)) by {
                if ps0.depth@.dom().contains(c) {
                    assert(ps0.vis(c));
                }
            }
            assert(ps1.dep(c) == r + 1);
            assert(pairs(b1)[k] == ((x as usize, y as usize), ps1.moves(c)[0]));
        }
    }
}

/// After a round of `propagate`, the brushfire has spread one round more.
#[verifier::rlimit(40)]
#[verifier::spinoff_prover]
proof fn lemma_next_round(g: Seq<Seq<Square>>, src: (int, int), ps0: &PathState, ps1: &PathState)
    requires
        ps0.wf_reach(g, src),
        ps1.round@ == ps0.round@ + 1,
        ps1.depth@ == next_depth(g, ps0, ps1.visited@),
        ps1.visited@.len() == g.len(),
        forall|y: int| 0 <= y < g.len() ==> (#[trigger] ps1.visited@[y])@.len() == g[0].len(),
        forall|x: int, y: int|
            #![trigger seen(ps1.visited@, (x, y))]
            inb(g, x, y) ==> (seen(ps1.visited@, (x, y)) <==> (seen(ps0.visited@, (x, y)) || (
            open_cell(g, (x, y)) && near_boundary(ps0.boundary@, ps0.boundary@.len() as int, (x, y))))),
        forall|x: int, y: int|
            #![trigger entry(ps1.visited@, (x, y))]
            inb(g, x, y) && seen(ps0.visited@, (x, y)) ==> entry(ps1.visited@, (x, y)) == entry(ps0.visited@, (x, y)),
        forall|x: int, y: int|
            #![trigger entry(ps1.visited@, (x, y))]
            inb(g, x, y) && seen(ps1.visited@, (x, y)) && !seen(ps0.visited@, (x, y)) ==> {
                let m = entry(ps1.visited@, (x, y)).1;
                &&& m.len() == 1
                &&& is_step(m[0])
                &&& exists|j: int| 0 <= j < ps0.boundary@.len() && #[trigger] bc(ps0.boundary@, j) == back((x, y), m[0])
            },
        forall|k: int|
            0 <= k < ps1.boundary@.len() ==> {
                &&& inb(g, (#[trigger] bc(ps1.boundary@, k)).0, bc(ps1.boundary@, k).1)
                &&& seen(ps1.visited@, bc(ps1.boundary@, k))
                &&& !seen(ps0.visited@, bc(ps1.boundary@, k))
            },
        forall|k: int, j: int| 0 <= k < ps1.boundary@.len() && 0 <= j < ps1.boundary@.len() && k != j ==> #[trigger] bc(ps1.boundary@, k) != #[trigger] bc(ps1.boundary@, j),
        forall|x: int, y: int|
            #![trigger seen(ps1.visited@, (x, y))]
            inb(g, x, y) && seen(ps1.visited@, (x, y)) && !seen(ps0.visited@, (x, y)) ==> exists|k: int|
                0 <= k < ps1.boundary@.len() && #[trigger] bc(ps1.boundary@, k) == (x, y),
    ensures
        ps1.wf_reach(g, src),
{
    let r = ps0.round@;
    let r1 = ps1.round@;
    let b0 = ps0.boundary@;
    let v0 = ps0.visited@;
    let v1 = ps1.visited@;
    assert forall|x: int, y: int| inb(g, x, y) implies (ps1.vis((x, y)) <==> within(g, src, (x, y), r1)) by {
        let c = (x, y);
        assert(seen(v1, c) == ps1.vis(c));
        assert(seen(v0, c) == ps0.vis(c));
        if ps1.vis(c) {
            if ps0.vis(c) {
                lemma_within_mono(g, src, c, r, r1);
            } else {
                let j = choose|j: int| 0 <= j < b0.len() && #[trigger] adj(bc(b0, j), c);
                let p = bc(b0, j);
                assert(ps0.bcoord(j) == p);
                assert(ps0.vis(p));
                assert(within(g, src, p, r));
            }
        }
        if within(g, src, c, r1) && !ps1.vis(c) {
            assert(!ps0.vis(c));
            assert(!within(g, src, c, r));
            assert(c != src);
            let nbrs = seq![(c.0 - 1, c.1), (c.0 + 1, c.1), (c.0, c.1 - 1), (c.0, c.1 + 1)];
            let k: int = if within(g, src, nbrs[0], r) { 0 } else if within(g, src, nbrs[1], r) { 1 } else if within(g, src, nbrs[2], r) { 2 } else { 3 };
            let p = nbrs[k];
            assert(within(g, src, p, r));
            if r > 0 && within(g, src, p, (r - 1) as nat) {
                assert(within(g, src, c, r));
            }
            assert(at_distance(g, src, p, r));
            if p != src {
                assert(open_cell(g, p));
            }
            assert(inb(g, p.0, p.1));
            assert(ps0.vis(p));
            assert(ps0.reached_ok(g, src, p));
            lemma_distance_unique(g, src, p, ps0.dep(p), r);
            let i = choose|i: int| 0 <= i < b0.len() && #[trigger] ps0.bcoord(i) == p;
            assert(bc(b0, i) == p);
            assert(adj(bc(b0, i), c));
            assert(near_boundary(b0, b0.len() as int, c));
        }
    }
    assert forall|x: int, y: int| inb(g, x, y) && ps1.vis((x, y)) implies ps1.reached_ok(g, src, (x, y)) by {
        let c = (x, y);
        assert(seen(v1, c) == ps1.vis(c));
        if ps0.vis(c) {
            assert(ps0.reached_ok(g, src, c));
            assert(entry(v1, c) == entry(v0, c));
            assert(ps1.moves(c) == ps0.moves(c));
            if c != src {
                let m = ps0.moves(c)[0];
                let p = back(c, m);
                assert(ps0.vis(p));
                assert(ps0.reached_ok(g, src, p));
                assert(seen(v1, p));
            }
        } else {
            assert(!ps0.depth@.dom().contains(c));
            assert(ps1.dep(c) == r1);
            assert(within(g, src, c, r1));
            assert(!within(g, src, c, r));
            assert(c != src) by {
                assert(within(g, src, src, r));
            }
            let m = entry(v1, c).1;
            assert(ps1.moves(c) == m);
            let j = choose|j: int| 0 <= j < b0.len() && #[trigger] bc(b0, j) == back(c, m[0]);
            let p = back(c, m[0]);
            assert(ps0.bcoord(j) == p);
            assert(ps0.vis(p));
            assert(seen(v1, p));
            assert(ps0.reached_ok(g, src, p));
            assert(ps1.dep(p) == r);
            assert(open_cell(g, c)) by {
                assert(seen(v1, c) <==> (seen(v0, c) || (open_cell(g, c) && near_boundary(b0, b0.len() as int, c))));
            }
        }
    }
    assert forall|i: int| 0 <= i < ps1.boundary@.len() implies {
        &&& inb(g, (#[trigger] ps1.bcoord(i)).0, ps1.bcoord(i).1)
        &&& ps1.vis(ps1.bcoord(i))
        &&& ps1.dep(ps1.bcoord(i)) == r1
    } by {
        let c = bc(ps1.boundary@, i);
        assert(ps1.bcoord(i) == c);
        assert(!seen(v0, c));
        assert(!ps0.depth@.dom().contains(c));
    }
    assert forall|i: int, j: int|
        0 <= i < ps1.boundary@.len() && 0 <= j < ps1.boundary@.len() && i != j implies #[trigger] ps1.bcoord(i) != #[trigger] ps1.bcoord(j) by {
        assert(ps1.bcoord(i) == bc(ps1.boundary@, i));
        assert(ps1.bcoord(j) == bc(ps1.boundary@, j));
    }
    assert forall|c: (int, int)| #[trigger] ps1.depth@.dom().contains(c) implies inb(g, c.0, c.1) && ps1.vis(c) by {
        if ps0.depth@.dom().contains(c) {
            assert(ps0.vis(c));
            assert(seen(v1, c));
        }
    }
    assert forall|x: int, y: int|
        inb(g, x, y) && ps1.vis((x, y)) && ps1.dep((x, y)) == r1 implies exists|i: int|
            0 <= i < ps1.boundary@.len() && #[trigger] ps1.bcoord(i) == (x, y) by {
        let c = (x, y);
        assert(seen(v1, c) == ps1.vis(c));
        if ps0.vis(c) {
            assert(ps0.reached_ok(g, src, c));
        } else {
            let k = choose|k: int| 0 <= k < ps1.boundary@.len() && #[trigger] bc(ps1.boundary@, k) == c;
            assert(ps1.bcoord(k) == c);
        }
    }
}

/// How many of the first `n` squares of a row the fire has not reached.
pub open spec fn row_unseen(row: Seq<(bool, Vec<Move>)>, n: int) -> nat
    decreases n,
{
    if n <= 0 {
        0
    } else {
        row_unseen(row, n - 1) + if !row[n - 1].0 { 1nat } else { 0nat }
    }
}

/// How many squares of the first `h` rows the fire has not reached.
pub open spec fn unseen(v: Seq<Vec<(bool, Vec<Move>)>>, h: int) -> nat
    decreases h,
{
    if h <= 0 {
        0
    } else {
        unseen(v, h - 1) + row_unseen(v[h - 1]@, v[h - 1]@.len() as int)
    }
}

proof fn lemma_row_unseen(r0: Seq<(bool, Vec<Move>)>, r1: Seq<(bool, Vec<Move>)>, n: int)
    requires
        0 <= n <= r0.len(),
        r0.len() == r1.len(),
        forall|k: int| 0 <= k < n && #[trigger] r0[k].0 ==> r1[k].0,
    ensures
        row_unseen(r1, n) <= row_unseen(r0, n),
        (exists|k: int| 0 <= k < n && #[trigger] r1[k].0 && !r0[k].0) ==> row_unseen(r1, n) < row_unseen(r0, n),
    decreases n,
{
    if n > 0 {
        lemma_row_unseen(r0, r1, n - 1);
        if exists|k: int| 0 <= k < n && #[trigger] r1[k].0 && !r0[k].0 {
            let k = choose|k: int| 0 <= k < n && #[trigger] r1[k].0 && !r0[k].0;
            if k < n - 1 {
                assert(exists|k: int| 0 <= k < n - 1 && #[trigger] r1[k].0 && !r0[k].0);
            }
        }
    }
}

/// Reaching more squares leaves fewer unreached.
proof fn lemma_unseen(v0: Seq<Vec<(bool, Vec<Move>)>>, v1: Seq<Vec<(bool, Vec<Move>)>>, h: int)
    requires
        0 <= h <= v0.len(),
        v0.len() == v1.len(),
        forall|y: int| 0 <= y < v0.len() ==> (#[trigger] v0[y])@.len() == v1[y]@.len(),
        forall|x: int, y: int| 1 <= y <= h && 1 <= x <= v0[y - 1]@.len() && #[trigger] seen(v0, (x, y)) ==> seen(v1, (x, y)),
    ensures
        unseen(v1, h) <= unseen(v0, h),
        (exists|x: int, y: int| 1 <= y <= h && 1 <= x <= v0[y - 1]@.len() && #[trigger] seen(v1, (x, y)) && !seen(v0, (x, y)))
            ==> unseen(v1, h) < unseen(v0, h),
    decreases h,
{
    if h > 0 {
        lemma_unseen(v0, v1, h - 1);
        let r0 = v0[h - 1]@;
        let r1 = v1[h - 1]@;
        assert forall|k: int| 0 <= k < r0.len() && #[trigger] r0[k].0 implies r1[k].0 by {
            assert(seen(v0, (k + 1, h)));
        }
        lemma_row_unseen(r0, r1, r0.len() as int);
        if exists|x: int, y: int| 1 <= y <= h && 1 <= x <= v0[y - 1]@.len() && #[trigger] seen(v1, (x, y)) && !seen(v0, (x, y)) {
            let (x, y) = choose|x: int, y: int| 1 <= y <= h && 1 <= x <= v0[y - 1]@.len() && #[trigger] seen(v1, (x, y)) && !seen(v0, (x, y));
            if y < h {
                assert(exists|x: int, y: int| 1 <= y <= h - 1 && 1 <= x <= v0[y - 1]@.len() && #[trigger] seen(v1, (x, y)) && !seen(v0, (x, y)));
            } else {
                assert(r1[x - 1].0 && !r0[x - 1].0);
            }
        }
    }
}

/// Some square is exactly `k` moves from the start.
pub open spec fn layer_nonempty(g: Seq<Seq<Square>>, src: (int, int), k: nat) -> bool {
    exists|x: int, y: int| inb(g, x, y) && #[trigger] at_distance(g, src, (x, y), k)
}

/// Target `i` is present and within `k` moves of the start.
pub open spec fn dest_within<T: Target>(g: Seq<Seq<Square>>, src: (int, int), dests: Seq<Option<T>>, i: int, k: nat) -> bool {
    0 <= i < dests.len() && dests[i] is Some && within(g, src, dest_sq(dests, i), k)
}

/// Some target is within `k` moves of the start.
pub open spec fn any_dest_within<T: Target>(g: Seq<Seq<Square>>, src: (int, int), dests: Seq<Option<T>>, k: nat) -> bool {
    exists|i: int| #[trigger] dest_within(g, src, dests, i, k)
}

/// The coordinates of an exec position.
pub open spec fn ic(c: Coord) -> (int, int) {
    (c.0 as int, c.1 as int)
}

/// The number of moves from `src` to `c` through enterable squares.
pub open spec fn dist_to(g: Seq<Seq<Square>>, src: (int, int), c: (int, int)) -> nat {
    choose|d: nat| at_distance(g, src, c, d)
}

/// The path the fire from `src` takes to `c`.
pub open spec fn fire_path(g: Seq<Seq<Square>>, src: (int, int), c: (int, int)) -> Seq<Move> {
    bfs_path(g, src, c, dist_to(g, src, c))
}

/// The first target (in list order) within `r` moves.
pub open spec fn first_dest<T: Target>(g: Seq<Seq<Square>>, src: (int, int), dests: Seq<Option<T>>, r: nat) -> int {
    choose|i: int| dest_within(g, src, dests, i, r) && forall|j: int| 0 <= j < i ==> !#[trigger] dest_within(g, src, dests, j, r)
}

/// A search for targets ends in round `k`: the fire burned out, or it
/// reached a target.
pub open spec fn search_ends<T: Target>(g: Seq<Seq<Square>>, src: (int, int), dests: Seq<Option<T>>, k: nat) -> bool {
    !layer_nonempty(g, src, k) || any_dest_within(g, src, dests, k)
}

/// The round after `from` in which a search for targets resumed from
/// round `from` ends.
pub open spec fn search_end<T: Target>(g: Seq<Seq<Square>>, src: (int, int), dests: Seq<Option<T>>, from: nat) -> nat {
    choose|k: nat| from < k && search_ends(g, src, dests, k) && forall|j: nat| from < j < k ==> !#[trigger] search_ends(g, src, dests, j)
}

/// The first round after `from` in which a search ends is `search_end`.
pub proof fn lemma_search_end<T: Target>(g: Seq<Seq<Square>>, src: (int, int), dests: Seq<Option<T>>, from: nat, k: nat)
    requires
        from < k,
        search_ends(g, src, dests, k),
        forall|j: nat| from < j < k ==> !#[trigger] search_ends(g, src, dests, j),
    ensures
        search_end(g, src, dests, from) == k,
{
    let k2 = search_end(g, src, dests, from);
    assert(from < k2 && search_ends(g, src, dests, k2) && forall|j: nat| from < j < k2 ==> !#[trigger] search_ends(g, src, dests, j));
    if k2 < k {
        assert(!search_ends(g, src, dests, k2));
    } else if k < k2 {
        assert(!search_ends(g, src, dests, k));
    }
}

/// What a search answers, read off: the first target within reach and the
/// path the fire took to it.
pub proof fn lemma_found<T: Target>(g: Seq<Seq<Square>>, src: (int, int), dests: Seq<Option<T>>, r: nat, p: Path, t: T)
    requires
        found_spec(g, src, dests, r, Some((p, t))),
    ensures
        dest_within(g, src, dests, first_dest(g, src, dests, r), r),
        dests[first_dest(g, src, dests, r)] == Some(t),
        p@ == fire_path(g, src, ic(t.spec_coord())),
        at_distance(g, src, ic(t.spec_coord()), p@.len()),
{
    let i = choose|i: int| {
        &&& #[trigger] dest_within(g, src, dests, i, r)
        &&& (forall|j: int| 0 <= j < i ==> !#[trigger] dest_within(g, src, dests, j, r))
        &&& dests[i] == Some(t)
        &&& walk_ok(g, src, p@)
        &&& walk_end(src, p@) == ic(t.spec_coord())
        &&& at_distance(g, src, ic(t.spec_coord()), p@.len())
        &&& p@ == bfs_path(g, src, ic(t.spec_coord()), p@.len())
    };
    let fi = first_dest(g, src, dests, r);
    assert(dest_within(g, src, dests, fi, r) && forall|j: int| 0 <= j < fi ==> !#[trigger] dest_within(g, src, dests, j, r));
    if fi < i {
        assert(!dest_within(g, src, dests, fi, r));
    } else if i < fi {
        assert(!dest_within(g, src, dests, i, r));
    }
    let c = ic(t.spec_coord());
    let d = dist_to(g, src, c);
    assert(at_distance(g, src, c, d));
    lemma_distance_unique(g, src, c, d, p@.len());
}

/// What a search for the next target answers once the fire has spread to
/// round `r`: nothing when no target is within `r` moves; otherwise the
/// first target (in list order) within `r` moves, with the path by which
/// the fire reached it, a shortest one through enterable squares.
pub open spec fn found_spec<T: Target>(
    g: Seq<Seq<Square>>,
    src: (int, int),
    dests: Seq<Option<T>>,
    r: nat,
    res: Option<(Path, T)>,
) -> bool {
    &&& (res is None <==> !any_dest_within(g, src, dests, r))
    &&& res matches Some((p, t)) ==> exists|i: int| {
        &&& #[trigger] dest_within(g, src, dests, i, r)
        &&& (forall|j: int| 0 <= j < i ==> !#[trigger] dest_within(g, src, dests, j, r))
        &&& dests[i] == Some(t)
        &&& walk_ok(g, src, p@)
        &&& walk_end(src, p@) == ic(t.spec_coord())
        &&& at_distance(g, src, ic(t.spec_coord()), p@.len())
        &&& p@ == bfs_path(g, src, ic(t.spec_coord()), p@.len())
    }
}

/// What the fire's state says of its round: a target is within reach
/// exactly when the fire has reached its square, and the round reached a
/// square exactly when the boundary holds one.
proof fn lemma_round_facts<T: Target>(g: Seq<Seq<Square>>, s: (int, int), dests: Seq<Option<T>>, ps: &PathState)
    requires
        ps.wf(g, s),
        dests_in(g, dests),
    ensures
        forall|i: int| 0 <= i < dests.len() ==> #[trigger] dest_within(g, s, dests, i, ps.round@) == dest_seen(dests, i, ps.visited@),
        layer_nonempty(g, s, ps.round@) <==> ps.boundary@.len() > 0,
{
    let r1 = ps.round@;
    assert forall|i: int| 0 <= i < dests.len() implies #[trigger] dest_within(g, s, dests, i, r1) == dest_seen(dests, i, ps.visited@) by {
        if dests[i] is Some {
            let c = dest_sq(dests, i);
            assert(inb(g, c.0, c.1));
            assert(ps.vis(c) == seen(ps.visited@, c));
        }
    }
    assert(layer_nonempty(g, s, r1) <==> ps.boundary@.len() > 0) by {
        if layer_nonempty(g, s, r1) {
            let (xx, yy) = choose|xx: int, yy: int| inb(g, xx, yy) && #[trigger] at_distance(g, s, (xx, yy), r1);
            assert(ps.vis((xx, yy)));
            assert(ps.reached_ok(g, s, (xx, yy)));
            lemma_distance_unique(g, s, (xx, yy), ps.dep((xx, yy)), r1);
            let i = choose|i: int| 0 <= i < ps.boundary@.len() && #[trigger] ps.bcoord(i) == (xx, yy);
        }
        if ps.boundary@.len() > 0 {
            let c = ps.bcoord(0);
            assert(ps.reached_ok(g, s, c));
            assert(at_distance(g, s, c, r1));
        }
    }
}

/// A lit fire's boundary holds a square exactly when some square is as far
/// from the start as the fire's round.
pub(crate) proof fn lemma_boundary_layer(g: Seq<Seq<Square>>, s: (int, int), ps: &PathState)
    requires
        ps.wf(g, s),
    ensures
        layer_nonempty(g, s, ps.round@) <==> ps.boundary@.len() > 0,
{
    lemma_round_facts(g, s, Seq::<Option<Coord>>::empty(), ps);
}

/// A search that went on through every round after `rin` up to `r1` and
/// ends in round `r1` ends there first.
proof fn lemma_ends_here<T: Target>(g: Seq<Seq<Square>>, s: (int, int), dests: Seq<Option<T>>, rin: nat, r1: nat)
    requires
        rin < r1,
        forall|k: nat| rin < k <= r1 - 1 ==> layer_nonempty(g, s, k) && !any_dest_within(g, s, dests, k),
        search_ends(g, s, dests, r1),
    ensures
        forall|k: nat| rin < k < r1 ==> layer_nonempty(g, s, k) && !any_dest_within(g, s, dests, k),
        search_end(g, s, dests, rin) == r1,
{
    assert forall|k: nat| rin < k < r1 implies !#[trigger] search_ends(g, s, dests, k) by {
        assert(k <= r1 - 1);
    }
    lemma_search_end(g, s, dests, rin, r1);
}

/// Once no square is exactly `r` moves away, every square reachable at all
/// is reachable within `r` moves.
pub proof fn lemma_burnt_out(g: Seq<Seq<Square>>, src: (int, int), r: nat, c: (int, int), k: nat)
    requires
        r >= 1,
        !layer_nonempty(g, src, r),
        within(g, src, c, k),
    ensures
        within(g, src, c, r),
    decreases k,
{
    if k <= r {
        lemma_within_mono(g, src, c, k, r);
    } else if c != src {
        let k1 = (k - 1) as nat;
        let r1 = (r - 1) as nat;
        let n = if within(g, src, (c.0 - 1, c.1), k1) {
            (c.0 - 1, c.1)
        } else if within(g, src, (c.0 + 1, c.1), k1) {
            (c.0 + 1, c.1)
        } else if within(g, src, (c.0, c.1 - 1), k1) {
            (c.0, c.1 - 1)
        } else {
            (c.0, c.1 + 1)
        };
        lemma_burnt_out(g, src, r, n, k1);
        if !within(g, src, n, r1) {
            assert(n != src);
            assert(open_cell(g, n));
            assert(at_distance(g, src, n, r));
            assert(inb(g, n.0, n.1) && at_distance(g, src, (n.0, n.1), r));
            assert(false);
        }
    }
}

/// Resumes the fire from `v` until it reaches a target or burns out: each
/// round spreads it one move further. Answers the first target (in list
/// order) within reach, with the path the fire took to it, or nothing when
/// the fire burned out with no target of the list within reach, so that no
/// target still listed can be reached at all. The fire's state comes back
/// for the next search.
#[verifier::rlimit(40)]
#[verifier::spinoff_prover]
pub fn genpath_restart<T: Target + Copy>(
    b: &Grid,
    src: Coord,
    dests: &[Option<T>],
    v: PathState,
) -> (res: (Option<(Path, T)>, PathState))
    requires
        v.wf(b@, ic(src)),
        dests_in(b@, dests@),
    ensures
        res.1.wf(b@, ic(src)),
        res.1.round@ > v.round@,
        forall|k: nat|
            v.round@ < k < res.1.round@ ==> layer_nonempty(b@, ic(src), k) && !any_dest_within(
                b@,
                ic(src),
                dests@,
                k,
            ),
        !layer_nonempty(b@, ic(src), res.1.round@) || any_dest_within(b@, ic(src), dests@, res.1.round@),
        found_spec(b@, ic(src), dests@, res.1.round@, res.0),
        res.0 is None ==> forall|i: int, k: nat| !#[trigger] dest_within(b@, ic(src), dests@, i, k),
        layer_nonempty(b@, ic(src), res.1.round@) ==> unseen(res.1.visited@, b@.len() as int) < unseen(
            v.visited@,
            b@.len() as int,
        ),
        unseen(res.1.visited@, b@.len() as int) <= unseen(v.visited@, b@.len() as int),
        res.1.round@ == search_end(b@, ic(src), dests@, v.round@),
{
    let ghost g = b@;
    let ghost s = ic(src);
    let ghost rin = v.round@;
    let ghost uin = unseen(v.visited@, b@.len() as int);
    let mut ps = v;
    loop
        invariant
            g == b@,
            s == ic(src),
            ps.wf(g, s),
            dests_in(g, dests@),
            rin == v.round@,
            uin == unseen(v.visited@, g.len() as int),
            unseen(ps.visited@, g.len() as int) <= uin,
            ps.round@ >= rin,
            forall|k: nat|
                rin < k <= ps.round@ ==> layer_nonempty(g, s, k) && !any_dest_within(g, s, dests@, k),
        decreases unseen(ps.visited@, g.len() as int),
    {
        let ghost ps0 = ps;
        let ghost r = ps.round@;
        proof {
            assert forall|i: int| 0 <= i < ps0.boundary@.len() implies inb(g, (#[trigger] bc(ps0.boundary@, i)).0, bc(ps0.boundary@, i).1) by {
                assert(ps0.bcoord(i) == bc(ps0.boundary@, i));
            }
        }
        let newb = propagate(b, &ps.boundary, &mut ps.visited);
        ps.boundary = newb;
        ps.round = Ghost((r + 1) as nat);
        ps.depth = Ghost(next_depth(g, &ps0, ps.visited@));
        proof {
            lemma_next_round(g, s, &ps0, &ps);
            lemma_next_layer(g, s, &ps0, &ps);
            assert forall|x: int, y: int| 1 <= y <= g.len() && 1 <= x <= ps0.visited@[y - 1]@.len() && #[trigger] seen(ps0.visited@, (x, y)) implies seen(ps.visited@, (x, y)) by {
                assert(g[y - 1].len() == g[0].len());
            }
            lemma_unseen(ps0.visited@, ps.visited@, g.len() as int);
            if ps.boundary@.len() > 0 {
                let bc0 = bc(ps.boundary@, 0);
                assert(ps.bcoord(0) == bc0);
                assert(seen(ps.visited@, bc0) && !seen(ps0.visited@, bc0));
            }
        }
        let condition = winner(dests, &ps.visited);
        let ghost r1 = (r + 1) as nat;
        proof {
            lemma_round_facts(g, s, dests@, &ps);
        }
        match condition {
            Some(i) => {
                let t = dests[i].unwrap();
                proof {
                    assert(dest_within(g, s, dests@, i as int, r1));
                    let c = ic(t.spec_coord());
                    assert(c == dest_sq(dests@, i as int));
                    assert(ps.vis(c));
                    assert(inb(g, c.0, c.1));
                }
                let p = build_path(&t, &ps, Ghost(g), Ghost(s));
                proof {
                    let c = ic(t.spec_coord());
                    assert(ps.reached_ok(g, s, c));
                    assert(forall|j: int| 0 <= j < i ==> !#[trigger] dest_within(g, s, dests@, j, r1));
                    assert(any_dest_within(g, s, dests@, r1));
                    lemma_ends_here(g, s, dests@, rin, r1);
                }
                let res = (Some((p, t)), ps);
                assert(forall|k: nat|
                        v.round@ < k < res.1.round@ ==> layer_nonempty(b@, ic(src), k) && !any_dest_within(b@, ic(src), dests@, k));
                return res;
            },
            None => {},
        }
        proof {
            assert(!any_dest_within(g, s, dests@, r1)) by {
                if any_dest_within(g, s, dests@, r1) {
                    let i = choose|i: int| #[trigger] dest_within(g, s, dests@, i, r1);
                    assert(dest_seen(dests@, i, ps.visited@));
                }
            }
        }
        if ps.boundary.len() == 0 {
            proof {
                lemma_ends_here(g, s, dests@, rin, r1);
                assert forall|i: int, k: nat| !#[trigger] dest_within(g, s, dests@, i, k) by {
                    if dest_within(g, s, dests@, i, k) {
                        lemma_burnt_out(g, s, r1, dest_sq(dests@, i), k);
                        assert(dest_within(g, s, dests@, i, r1));
                    }
                }
            }
            return (None, ps);
        }
    }
}

/// A table of `h` rows of `w` squares, none of them reached.
fn unreached_table(h: usize, w: usize) -> (v: Vec<Vec<(bool, Vec<Move>)>>)
    ensures
        v@.len() == h,
        forall|y: int| 0 <= y < h ==> (#[trigger] v@[y])@.len() == w,
        forall|x: int, y: int| 0 <= y < h && 0 <= x < w ==> !(#[trigger] v@[y]@[x]).0 && v@[y]@[x].1@.len() == 0,
{
    let mut v: Vec<Vec<(bool, Vec<Move>)>> = Vec::new();
    let mut i: usize = 0;
    while i < h
        invariant
            i <= h,
            v@.len() == i,
            forall|y: int| 0 <= y < i ==> (#[trigger] v@[y])@.len() == w,
            forall|x: int, y: int| 0 <= y < i && 0 <= x < w ==> !(#[trigger] v@[y]@[x]).0 && v@[y]@[x].1@.len() == 0,
        decreases h - i,
    {
        let mut row: Vec<(bool, Vec<Move>)> = Vec::new();
        let mut j: usize = 0;
        while j < w
            invariant
                j <= w,
                row@.len() == j,
                forall|x: int| 0 <= x < j ==> !(#[trigger] row@[x]).0 && row@[x].1@.len() == 0,
            decreases w - j,
        {
            row.push((false, Vec::new()));
            j += 1;
        }
        v.push(row);
        i += 1;
    }
    v
}

/// Starts a fire at `src` and spreads it until it reaches a target or burns
/// out; see `genpath_restart`, which this is from round 0.
pub fn genpaths<T: Target + Copy>(b: &Grid, src: Coord, dests: &[Option<T>]) -> (res: (Option<(Path, T)>, PathState))
    requires
        rect(b@),
        inb(b@, src.0 as int, src.1 as int),
        dests_in(b@, dests@),
    ensures
        res.1.wf(b@, ic(src)),
        res.1.round@ > 0,
        forall|k: nat|
            0 < k < res.1.round@ ==> layer_nonempty(b@, ic(src), k) && !any_dest_within(b@, ic(src), dests@, k),
        !layer_nonempty(b@, ic(src), res.1.round@) || any_dest_within(b@, ic(src), dests@, res.1.round@),
        found_spec(b@, ic(src), dests@, res.1.round@, res.0),
        res.0 is None ==> forall|i: int, k: nat| !#[trigger] dest_within(b@, ic(src), dests@, i, k),
        res.1.round@ == search_end(b@, ic(src), dests@, 0),
{
    let ghost g = b@;
    let ghost s = ic(src);
    let (x, y) = src;
    proof {
        b.lemma_lens_fit();
    }
    let mut visited = unreached_table(b.rows.len(), b.rows[0].len());
    let ghost pre = visited@;
    proof {
        assert(visited@[y - 1]@.len() == g[0].len());
    }
    visited[y - 1][x - 1] = (true, vec![Move::W]);
    let boundary: Vec<BoundaryElement> = vec![(src, vec![Move::W])];
    let ps = PathState { visited, boundary, round: Ghost(0), depth: Ghost(Map::empty().insert(s, 0nat)) };
    proof {
        assert forall|xx: int, yy: int| inb(g, xx, yy) implies #[trigger] entry(ps.visited@, (xx, yy)) == if (xx, yy) == s {
            (true, seq![Move::W])
        } else {
            (false, Seq::<Move>::empty())
        } by {
            if yy != y {
                assert(ps.visited@[yy - 1] == pre[yy - 1]);
            }
            assert(pre[yy - 1]@[xx - 1].1@.len() == 0);
        }
        assert forall|y2: int| 0 <= y2 < g.len() implies (#[trigger] ps.visited@[y2])@.len() == g[0].len() by {
            if y2 != y - 1 {
                assert(ps.visited@[y2] == pre[y2]);
            }
        }
        assert forall|xx: int, yy: int| inb(g, xx, yy) implies (#[trigger] ps.vis((xx, yy)) <==> within(g, s, (xx, yy), ps.round@)) by {
            assert(entry(ps.visited@, (xx, yy)).0 == ps.vis((xx, yy)));
        }
        assert forall|xx: int, yy: int| inb(g, xx, yy) && #[trigger] ps.vis((xx, yy)) implies ps.reached_ok(g, s, (xx, yy)) by {
            assert(entry(ps.visited@, (xx, yy)).0 == ps.vis((xx, yy)));
            assert((xx, yy) == s);
            assert(entry(ps.visited@, s).1 == ps.moves(s));
        }
        assert(ps.bcoord(0) == s);
        assert(ps.vis(s)) by {
            assert(entry(ps.visited@, s).0 == ps.vis(s));
        }
        assert forall|xx: int, yy: int|
            inb(g, xx, yy) && #[trigger] ps.vis((xx, yy)) && ps.dep((xx, yy)) == ps.round@ implies exists|i: int|
                0 <= i < ps.boundary@.len() && #[trigger] ps.bcoord(i) == (xx, yy) by {
            assert(entry(ps.visited@, (xx, yy)).0 == ps.vis((xx, yy)));
            assert(ps.bcoord(0) == (xx, yy));
        }
        assert(ps.wf_reach(g, s));
        assert(pairs(ps.boundary@) =~= layer(g, s, 0)) by {
            reveal(layer);
        }
        assert forall|xx: int, yy: int| inb(g, xx, yy) && #[trigger] ps.vis((xx, yy)) && (xx, yy) != s implies layer(g, s, ps.dep((xx, yy))).contains(
            ((xx as usize, yy as usize), ps.moves((xx, yy))[0]),
        ) by {
            assert(entry(ps.visited@, (xx, yy)).0 == ps.vis((xx, yy)));
        }
    }
    genpath_restart(b, src, dests, ps)
}

/// Playing the moves of `p` in turn from `s`: the game goes on in the state
/// after the last move, or ends at the first move that ends it.
pub open spec fn spec_apply(s: StateView, p: Seq<Move>, strict: bool) -> StepView
    decreases p.len(),
{
    if p.len() == 0 {
        StepView::Stepped(s)
    } else {
        match spec_step(s, p[0], strict) {
            StepView::Stepped(s2) => spec_apply(s2, p.drop_first(), strict),
            r => r,
        }
    }
}

/// Every step of playing `p` from `s` can be simulated.
pub open spec fn apply_defined(s: StateView, p: Seq<Move>, strict: bool) -> bool
    decreases p.len(),
{
    p.len() == 0 || (step_defined(s, p[0]) && match spec_step(s, p[0], strict) {
        StepView::Stepped(s2) => apply_defined(s2, p.drop_first(), strict),
        _ => true,
    })
}

/// Plays the moves of `p` in turn from `st`: answers the state after the
/// last move, or the outcome of the first move that ends the game.
pub fn apply(p: &Vec<Move>, st: &State, strict: bool) -> (res: StepResult)
    requires
        apply_defined(st@, p@, strict),
    ensures
        res@ == spec_apply(st@, p@, strict),
{
    let mut cur = st.copy();
    let mut i: usize = 0;
    assert(p@.skip(0) =~= p@);
    while i < p.len()
        invariant
            i <= p@.len(),
            spec_apply(st@, p@, strict) == spec_apply(cur@, p@.skip(i as int), strict),
            apply_defined(cur@, p@.skip(i as int), strict),
        decreases p@.len() - i,
    {
        let ghost rest = p@.skip(i as int);
        proof {
            assert(rest[0] == p@[i as int]);
            assert(rest.drop_first() =~= p@.skip(i + 1));
        }
        match cur.step(p[i], strict) {
            StepResult::Stepped(s2) => {
                cur = s2;
            },
            other => {
                return other;
            },
        }
        i += 1;
    }
    proof {
        assert(p@.skip(i as int).len() == 0);
    }
    StepResult::Stepped(cur)
}

/// Playing a path never breaks a mine's soundness: from a sound mine whose
/// counters have room for every move of the path, every move can be
/// simulated, and when the game goes on the mine is still sound.
pub proof fn law_apply_keeps_sound(s: StateView, p: Seq<Move>, strict: bool)
    requires
        sound(s),
        room(s, p.len() as int),
    ensures
        apply_defined(s, p, strict),
        spec_apply(s, p, strict) matches StepView::Stepped(s2) ==> sound(s2) && room(s2, 0),
    decreases p.len(),
{
    if p.len() > 0 {
        lemma_sound_step_defined(s, p[0]);
        law_step_keeps_sound(s, p[0], strict, p.len() as int);
        if let StepView::Stepped(s2) = spec_step(s, p[0], strict) {
            law_apply_keeps_sound(s2, p.drop_first(), strict);
        }
    }
}

/// A table of `h` rows of width `w` has at most `h * w` unreached squares.
pub proof fn lemma_unseen_bound(v: Seq<Vec<(bool, Vec<Move>)>>, h: int, w: int)
    requires
        0 <= h <= v.len(),
        0 <= w,
        forall|y: int| 0 <= y < h ==> (#[trigger] v[y])@.len() == w,
    ensures
        unseen(v, h) <= h * w,
    decreases h,
{
    if h > 0 {
        lemma_unseen_bound(v, h - 1, w);
        lemma_row_unseen_bound(v[h - 1]@, w);
        assert((h - 1) * w + w == h * w) by (nonlinear_arith);
    }
}

proof fn lemma_row_unseen_bound(row: Seq<(bool, Vec<Move>)>, n: int)
    requires
        0 <= n <= row.len(),
    ensures
        row_unseen(row, n) <= n,
    decreases n,
{
    if n > 0 {
        lemma_row_unseen_bound(row, n - 1);
    }
}

/// The opposite of the opposite move is the move itself.
pub proof fn law_invert_twice(m: Move)
    ensures
        inverted(inverted(m)) == m,
{
}

/// The brushfire enters empty space, earth, lambdas and open lifts, and
/// nothing else; each move shifts a position as its name says, and the
/// inverse move leads back.
pub proof fn law_fire_squares_and_moves(q: Square, src: (int, int), m: Move)
    ensures
        passable_square(q) <==> (q == Square::Empty || q == Square::Earth || q == Square::Lambda || q
            == Square::LiftO),
        walk_end(src, seq![Move::R]) == (src.0 + 1, src.1),
        walk_end(src, seq![Move::L]) == (src.0 - 1, src.1),
        walk_end(src, seq![Move::U]) == (src.0, src.1 + 1),
        walk_end(src, seq![Move::D]) == (src.0, src.1 - 1),
        walk_end(src, seq![m, inverted(m)]) == src,
{
    let e = Seq::<Move>::empty();
    assert(walk_end(src, e) == src);
    assert(seq![m].drop_last() =~= e);
    assert(seq![m].last() == m);
    assert(walk_end(src, seq![m]) == (src.0 + delta(m).0, src.1 + delta(m).1));
    assert(seq![m, inverted(m)].drop_last() =~= seq![m]);
    assert(seq![m, inverted(m)].last() == inverted(m));
    assert(seq![Move::R].drop_last() =~= e);
    assert(seq![Move::L].drop_last() =~= e);
    assert(seq![Move::U].drop_last() =~= e);
    assert(seq![Move::D].drop_last() =~= e);
    assert(seq![Move::R].last() == Move::R);
    assert(seq![Move::L].last() == Move::L);
    assert(seq![Move::U].last() == Move::U);
    assert(seq![Move::D].last() == Move::D);
}

} // verus!
