//! The A* path finder: the lambdas in order of taxicab distance, each reached
//! by a best-first search that weighs the squares crossed and avoids moving
//! down from under a rock.

use vstd::prelude::*;
use vstd::wrapping::usize_specs;
use crate::brushfire::state_apply;
use crate::dlist::{DList, DListNode, create};
use crate::path::{Path, delta, get_neighbors, is_step, spec_apply, walk_end};
use crate::play::survives;
use crate::state::{
    Coord, Grid, Move, Square, State, StateView, StepView, cell, coord_cells, inb, lambda_coords, rect, room, sound,
};

verus! {

/// A priority queue: entries with their priorities, in the order they come
/// out.
pub type Pq<T> = DList<(usize, T)>;

/// The index of the first entry whose priority is at least `prio`, or the
/// length when there is none.
pub open spec fn first_prio_at_least<T>(s: Seq<(usize, T)>, prio: usize) -> int
    decreases s.len(),
{
    if s.len() == 0 {
        0
    } else if s[0].0 >= prio {
        0
    } else {
        1 + first_prio_at_least(s.drop_first(), prio)
    }
}

proof fn lemma_first_prio<T>(s: Seq<(usize, T)>, prio: usize, m: int)
    requires
        0 <= m <= s.len(),
        forall|k: int| 0 <= k < m ==> s[k].0 < prio,
        m == s.len() || s[m].0 >= prio,
    ensures
        first_prio_at_least(s, prio) == m,
    decreases m,
{
    if m > 0 {
        lemma_first_prio(s.drop_first(), prio, m - 1);
    }
}

/// The queue with `x` put just after the first entry of priority at least
/// `prio`, or at the tail when there is none.
pub open spec fn queued<T>(s: Seq<(usize, T)>, x: T, prio: usize) -> Seq<(usize, T)> {
    let i = first_prio_at_least(s, prio);
    if i < s.len() {
        s.insert(i + 1, (prio, x))
    } else {
        s.push((prio, x))
    }
}

/// Queues `troll` with priority `prio`: just after the first entry of
/// priority at least `prio`, or at the tail.
pub fn pqins<T>(pq: &mut Pq<T>, troll: T, prio: usize)
    requires
        old(pq).wf(),
    ensures
        final(pq).wf(),
        final(pq)@ == queued(old(pq)@, troll, prio),
{
    proof {
        pq.lemma_nodes();
    }
    let mut link = pq.peek_n();
    let ghost mut k: int = 0;
    while link.is_some()
        invariant
            pq.wf(),
            *pq == *old(pq),
            0 <= k <= pq@.len(),
            k < pq@.len() ==> link == Some(DListNode { idx: pq.nodes()[k] }),
            k == pq@.len() ==> link is None,
            forall|j: int| 0 <= j < k ==> pq@[j].0 < prio,
            pq.nodes().len() == pq@.len(),
            forall|j: int| 0 <= j < pq@.len() ==> #[trigger] pq.datum(pq.nodes()[j] as int) == pq@[j],
            forall|j: int| 0 <= j < pq@.len() ==> pq.allocated(#[trigger] pq.nodes()[j] as int),
            forall|j: int| 0 <= j < pq@.len() ==> #[trigger] pq.pos(DListNode { idx: pq.nodes()[j] }) == j,
        decreases pq@.len() - k,
    {
        let neighbor = link.unwrap();
        assert(pq.has(neighbor)) by {
            assert(pq.nodes()[k] == neighbor.idx);
        }
        if pq.data(neighbor).0 >= prio {
            proof {
                lemma_first_prio(pq@, prio, k);
            }
            pq.insert_after((prio, troll), neighbor);
            return;
        }
        link = pq.next_link(neighbor);
        proof {
            k = k + 1;
        }
    }
    proof {
        lemma_first_prio(pq@, prio, k);
        assert(pq@.insert(pq@.len() as int, (prio, troll)) =~= pq@.push((prio, troll)));
    }
    pq.push((prio, troll));
}

/// Every entry of the queued list is the new one or an old one.
proof fn lemma_queued_elems<T>(s: Seq<(usize, T)>, x: T, prio: usize)
    ensures
        forall|k: int| 0 <= k < queued(s, x, prio).len() ==> #[trigger] queued(s, x, prio)[k] == (prio, x)
            || s.contains(queued(s, x, prio)[k]),
        queued(s, x, prio).len() == s.len() + 1,
{
    lemma_first_prio_range(s, prio);
    let q = queued(s, x, prio);
    assert forall|k: int| 0 <= k < q.len() implies #[trigger] q[k] == (prio, x) || s.contains(q[k]) by {
        let i = first_prio_at_least(s, prio);
        if i < s.len() {
            if k < i + 1 {
                assert(q[k] == s[k]);
            } else if k > i + 1 {
                assert(q[k] == s[k - 1]);
            }
        } else if k < s.len() {
            assert(q[k] == s[k]);
        }
    }
}

proof fn lemma_first_prio_range<T>(s: Seq<(usize, T)>, prio: usize)
    ensures
        0 <= first_prio_at_least(s, prio) <= s.len(),
    decreases s.len(),
{
    if s.len() > 0 && s[0].0 < prio {
        lemma_first_prio_range(s.drop_first(), prio);
    }
}

/// The taxicab distance between two positions (as unsigned numbers, which
/// wrap).
pub open spec fn spec_distance(a: Coord, b: Coord) -> usize {
    usize_specs::wrapping_add(
        if a.0 > b.0 { (a.0 - b.0) as usize } else { (b.0 - a.0) as usize },
        if a.1 > b.1 { (a.1 - b.1) as usize } else { (b.1 - a.1) as usize },
    )
}

/// The distance the search weighs by is the taxicab distance: the
/// difference of the columns plus that of the rows (when it fits).
pub proof fn law_distance(a: Coord, b: Coord)
    ensures
        ({
            let dx: int = if a.0 > b.0 { a.0 - b.0 } else { b.0 - a.0 };
            let dy: int = if a.1 > b.1 { a.1 - b.1 } else { b.1 - a.1 };
            dx + dy <= usize::MAX ==> spec_distance(a, b) == dx + dy
        }),
        spec_distance(a, b) == spec_distance(b, a),
        spec_distance(a, a) == 0,
{
}

/// The taxicab distance between two positions (as unsigned numbers, which
/// wrap).
fn distance(a: Coord, b: Coord) -> (d: usize)
    ensures
        d == spec_distance(a, b),
{
    let (ax, ay) = a;
    let (b_x, b_y) = b;
    let cx = if ax > b_x { ax - b_x } else { b_x - ax };
    let cy = if ay > b_y { ay - b_y } else { b_y - ay };
    cx.wrapping_add(cy)
}

/// What stepping from `a` to `b` by `m` costs: 5 into earth or empty space,
/// 3 onto a lambda, and 5 more when a rock sits on top of `a`; 0 (no way)
/// into anything else, or down from under a rock.
pub open spec fn spec_cost(g: Seq<Seq<Square>>, a: Coord, b: Coord, m: Move) -> usize {
    let sq = cell(g, b.0 as int, b.1 as int);
    let c: usize = if sq == Square::Earth || sq == Square::Empty {
        5
    } else if sq == Square::Lambda {
        3
    } else {
        0
    };
    if c == 0 {
        0
    } else if a.1 < g.len() && cell(g, a.0 as int, a.1 + 1) == Square::Rock {
        if m == Move::D {
            0
        } else {
            (c + 5) as usize
        }
    } else {
        c
    }
}

/// The price of a step: 5 into earth or empty space and 3 onto a lambda,
/// with 5 more for stepping out sideways or up from under a rock; a step
/// into any other square, or down from under a rock, has no way (0).
pub proof fn law_step_costs(g: Seq<Seq<Square>>, a: Coord, b: Coord, m: Move)
    ensures
        ({
            let into = cell(g, b.0 as int, b.1 as int);
            let under_rock = a.1 < g.len() && cell(g, a.0 as int, a.1 + 1) == Square::Rock;
            let base: int = if into == Square::Earth || into == Square::Empty {
                5
            } else if into == Square::Lambda {
                3
            } else {
                0
            };
            &&& base == 0 ==> spec_cost(g, a, b, m) == 0
            &&& base > 0 && under_rock && m == Move::D ==> spec_cost(g, a, b, m) == 0
            &&& base > 0 && under_rock && m != Move::D ==> spec_cost(g, a, b, m) == base + 5
            &&& base > 0 && !under_rock ==> spec_cost(g, a, b, m) == base
        }),
{
}

/// What stepping from `a` to `b` by `m` costs; 0 means there is no way.
fn cost(s: &State, a: Coord, b: Coord, m: Move) -> (c: usize)
    requires
        rect(s@.grid),
        inb(s@.grid, a.0 as int, a.1 as int),
        inb(s@.grid, b.0 as int, b.1 as int),
    ensures
        c == spec_cost(s@.grid, a, b, m),
{
    let h = s.grid.rows.len();
    let mut c: usize;
    match s.grid.at(b) {
        Square::Earth | Square::Empty => {
            c = 5;
        },
        Square::Lambda => {
            c = 3;
        },
        _ => {
            return 0;
        },
    }
    let (ax, ay) = a;
    if ay < h {
        proof {
            assert(s@.grid[ay as int].len() == s@.grid[0].len());
        }
        if s.grid.at((ax, ay + 1)) == Square::Rock {
            match m {
                Move::D => {
                    return 0;
                },
                _ => {
                    c += 5;
                },
            }
        }
    }
    c
}

/// The neighbour of `p` that move `m` reaches, with the move, when it lies
/// in the grid.
pub open spec fn nb(g: Seq<Seq<Square>>, p: Coord, m: Move) -> Seq<(Coord, Move)> {
    if inb(g, p.0 + delta(m).0, p.1 + delta(m).1) {
        seq![(((p.0 + delta(m).0) as usize, (p.1 + delta(m).1) as usize), m)]
    } else {
        Seq::empty()
    }
}

/// The neighbours of `p` in the grid that moves `ms` reach, in order.
pub open spec fn nb_list(g: Seq<Seq<Square>>, p: Coord, ms: Seq<Move>) -> Seq<(Coord, Move)>
    decreases ms.len(),
{
    if ms.len() == 0 {
        Seq::empty()
    } else {
        nb_list(g, p, ms.drop_last()) + nb(g, p, ms.last())
    }
}

/// The neighbours of `p` that lie in the grid, with the moves that reach
/// them, in the order right, up, left, down.
pub open spec fn grid_neighbors(g: Seq<Seq<Square>>, p: Coord) -> Seq<(Coord, Move)> {
    nb_list(g, p, seq![Move::R, Move::U, Move::L, Move::D])
}

/// The neighbours of `p` that lie in the grid, with the moves that reach
/// them, in the order right, up, left, down.
pub fn neighbors_of(g: &Grid, p: Coord) -> (v: Vec<(Coord, Move)>)
    requires
        rect(g@),
        inb(g@, p.0 as int, p.1 as int),
    ensures
        forall|k: int|
            0 <= k < v@.len() ==> {
                &&& is_step((#[trigger] v@[k]).1)
                &&& inb(g@, v@[k].0.0 as int, v@[k].0.1 as int)
                &&& (v@[k].0.0 as int, v@[k].0.1 as int) == (p.0 + delta(v@[k].1).0, p.1 + delta(v@[k].1).1)
            },
        v@ == grid_neighbors(g@, p),
{
    let ns = get_neighbors(p);
    let ghost ms = seq![Move::R, Move::U, Move::L, Move::D];
    proof {
        g.lemma_lens_fit();
    }
    let mut v: Vec<(Coord, Move)> = Vec::new();
    let mut i: usize = 0;
    while i < 4
        invariant
            i <= 4,
            rect(g@),
            inb(g@, p.0 as int, p.1 as int),
            g@.len() <= usize::MAX,
            g@[0].len() <= usize::MAX,
            ns@ == seq![
                ((p.0.wrapping_add(1), p.1), Move::R),
                ((p.0, p.1.wrapping_add(1)), Move::U),
                ((p.0.wrapping_sub(1), p.1), Move::L),
                ((p.0, p.1.wrapping_sub(1)), Move::D),
            ],
            forall|k: int|
                0 <= k < v@.len() ==> {
                    &&& is_step((#[trigger] v@[k]).1)
                    &&& inb(g@, v@[k].0.0 as int, v@[k].0.1 as int)
                    &&& (v@[k].0.0 as int, v@[k].0.1 as int) == (p.0 + delta(v@[k].1).0, p.1 + delta(v@[k].1).1)
                },
            ms == seq![Move::R, Move::U, Move::L, Move::D],
            v@ == nb_list(g@, p, ms.take(i as int)),
        decreases 4 - i,
    {
        let (n, m) = ns[i];
        proof {
            assert(ms.take(i + 1).drop_last() =~= ms.take(i as int));
            assert(ms.take(i + 1).last() == ms[i as int]);
            assert(m == ms[i as int]);
            assert(g@[p.1 - 1].len() == g@[0].len());
            if i == 0 || i == 2 {
                assert(n.1 == p.1);
            }
        }
        let ghost before = v@;
        if g.contains(n) {
            proof {
                let pr = p.0 as int;
                assert(g@[p.1 - 1].len() == g@[0].len());
            }
            v.push((n, m));
        }
        proof {
            if inb(g@, p.0 + delta(m).0, p.1 + delta(m).1) {
                assert((n.0 as int, n.1 as int) == (p.0 + delta(m).0, p.1 + delta(m).1));
            }
            assert(v@ =~= before + nb(g@, p, m));
        }
        i += 1;
    }
    proof {
        assert(ms.take(4) =~= ms);
    }
    v
}

/// A queued step of the search: the square reached, the move that reached
/// it, the moves before that move, and what the way there cost.
pub type AstarHelp = (Coord, Move, Path, usize);

/// A queued step is a walk from `src`: the first step waits at `src`; every
/// later one has moves that start with that wait and lead through the grid
/// to the square before, and a real move onto its square.
pub open spec fn step_ok(g: Seq<Seq<Square>>, src: Coord, e: AstarHelp) -> bool {
    &&& inb(g, e.0.0 as int, e.0.1 as int)
    &&& (e.2@.len() == 0 && e.1 == Move::W && e.0 == src) || (e.2@.len() >= 1 && e.2@[0] == Move::W
        && is_step(e.1) && walk_end((src.0 as int, src.1 as int), e.2@.drop_first().push(e.1)) == (
        e.0.0 as int,
        e.0.1 as int,
    ))
}

/// A table of marks, row by row.
pub open spec fn tview(v: Seq<Vec<bool>>) -> Seq<Seq<bool>> {
    v.map_values(|r: Vec<bool>| r@)
}

/// How many squares of the first `h` rows of a table are unmarked.
pub open spec fn unmarked(t: Seq<Seq<bool>>, h: int) -> nat
    decreases h,
{
    if h <= 0 {
        0
    } else {
        unmarked(t, h - 1) + row_unmarked(t[h - 1], t[h - 1].len() as int)
    }
}

/// How many of the first `n` squares of a row are unmarked.
pub open spec fn row_unmarked(row: Seq<bool>, n: int) -> nat
    decreases n,
{
    if n <= 0 {
        0
    } else {
        row_unmarked(row, n - 1) + if !row[n - 1] { 1nat } else { 0nat }
    }
}

pub proof fn lemma_row_mark(row: Seq<bool>, n: int, c: int)
    requires
        0 <= c < n <= row.len(),
        !row[c],
    ensures
        row_unmarked(row.update(c, true), n) + 1 == row_unmarked(row, n),
    decreases n,
{
    if c < n - 1 {
        lemma_row_mark(row, n - 1, c);
    } else {
        lemma_row_same(row, row.update(c, true), n - 1);
    }
}

pub proof fn lemma_row_same(a: Seq<bool>, b: Seq<bool>, n: int)
    requires
        0 <= n <= a.len(),
        n <= b.len(),
        forall|k: int| 0 <= k < n ==> a[k] == b[k],
    ensures
        row_unmarked(a, n) == row_unmarked(b, n),
    decreases n,
{
    if n > 0 {
        lemma_row_same(a, b, n - 1);
    }
}

pub proof fn lemma_table_same(a: Seq<Seq<bool>>, b: Seq<Seq<bool>>, h: int)
    requires
        0 <= h <= a.len(),
        h <= b.len(),
        forall|k: int| 0 <= k < h ==> a[k] == b[k],
    ensures
        unmarked(a, h) == unmarked(b, h),
    decreases h,
{
    if h > 0 {
        lemma_table_same(a, b, h - 1);
    }
}

pub proof fn lemma_table_mark(v: Seq<Seq<bool>>, w: Seq<Seq<bool>>, h: int, r: int, c: int)
    requires
        0 <= r < h <= v.len(),
        v.len() == w.len(),
        0 <= c < v[r].len(),
        !v[r][c],
        w[r] == v[r].update(c, true),
        forall|k: int| 0 <= k < v.len() && k != r ==> w[k] == v[k],
    ensures
        unmarked(w, h) + 1 == unmarked(v, h),
    decreases h,
{
    if r < h - 1 {
        lemma_table_mark(v, w, h - 1, r, c);
    } else {
        lemma_table_same(v, w, h - 1);
        lemma_row_mark(v[r], v[r].len() as int, c);
    }
}

/// A table with a row for each row of the grid and a mark for each square.
pub open spec fn table_ok(g: Seq<Seq<Square>>, t: Seq<Seq<bool>>) -> bool {
    t.len() == g.len() && forall|y: int| 0 <= y < g.len() ==> (#[trigger] t[y]).len() == g[0].len()
}

/// Square `c` is marked.
pub open spec fn is_marked(t: Seq<Seq<bool>>, c: Coord) -> bool {
    t[c.1 - 1][c.0 - 1]
}

/// The table with square `c` marked.
pub open spec fn mark(t: Seq<Seq<bool>>, c: Coord) -> Seq<Seq<bool>> {
    t.update(c.1 - 1, t[c.1 - 1].update(c.0 - 1, true))
}

/// A table with no square marked, shaped as the grid.
pub open spec fn clear_table(g: Seq<Seq<Square>>) -> Seq<Seq<bool>> {
    Seq::new(g.len(), |y: int| Seq::new(g[0].len(), |x: int| false))
}

/// Marking an unmarked square of the grid leaves one square fewer unmarked.
pub proof fn lemma_mark_count(g: Seq<Seq<Square>>, t: Seq<Seq<bool>>, c: Coord)
    requires
        rect(g),
        table_ok(g, t),
        inb(g, c.0 as int, c.1 as int),
        !is_marked(t, c),
    ensures
        unmarked(mark(t, c), t.len() as int) < unmarked(t, t.len() as int),
        table_ok(g, mark(t, c)),
{
    assert(g[c.1 - 1].len() == g[0].len());
    lemma_table_mark(t, mark(t, c), t.len() as int, c.1 - 1, c.0 - 1);
}

/// A table of `h` rows of `w` unmarked squares.
fn unmarked_table(h: usize, w: usize) -> (v: Vec<Vec<bool>>)
    ensures
        v@.len() == h,
        forall|y: int| 0 <= y < h ==> (#[trigger] v@[y])@.len() == w,
        tview(v@) == Seq::new(h as nat, |y: int| Seq::new(w as nat, |x: int| false)),
{
    let mut v: Vec<Vec<bool>> = Vec::new();
    let mut i: usize = 0;
    while i < h
        invariant
            i <= h,
            v@.len() == i,
            forall|y: int| 0 <= y < i ==> (#[trigger] v@[y])@.len() == w,
            forall|y: int| 0 <= y < i ==> (#[trigger] v@[y])@ == Seq::new(w as nat, |x: int| false),
        decreases h - i,
    {
        let mut row: Vec<bool> = Vec::new();
        let mut j: usize = 0;
        while j < w
            invariant
                j <= w,
                row@.len() == j,
                forall|x: int| 0 <= x < j ==> !(#[trigger] row@[x]),
            decreases w - j,
        {
            row.push(false);
            j += 1;
        }
        proof {
            assert(row@ =~= Seq::new(w as nat, |x: int| false));
        }
        v.push(row);
        i += 1;
    }
    proof {
        assert(tview(v@) =~= Seq::new(h as nat, |y: int| Seq::new(w as nat, |x: int| false)));
    }
    v
}

/// Takes the first entry off the queue.
fn pq_pop(pq: &mut Pq<AstarHelp>) -> (e: Option<(usize, AstarHelp)>)
    requires
        old(pq).wf(),
    ensures
        final(pq).wf(),
        old(pq)@.len() == 0 ==> e is None && final(pq)@ == old(pq)@,
        old(pq)@.len() > 0 ==> (e matches Some(x) && x.0 == old(pq)@[0].0 && x.1.0 == old(pq)@[0].1.0
            && x.1.1 == old(pq)@[0].1.1 && x.1.2@ == old(pq)@[0].1.2@ && x.1.3 == old(pq)@[0].1.3
            && final(pq)@ == old(pq)@.drop_first()),
{
    match pq.pop_n() {
        Some(n) => {
            let d = pq.data(n);
            Some((d.0, (d.1.0, d.1.1, d.1.2.clone(), d.1.3)))
        },
        None => None,
    }
}

/// A queued step, its moves as a sequence.
pub type QEntry = (usize, (Coord, Move, Seq<Move>, usize));

/// The queue's entries, their moves as sequences.
pub open spec fn qview(q: Seq<(usize, AstarHelp)>) -> Seq<QEntry> {
    q.map_values(|e: (usize, AstarHelp)| (e.0, (e.1.0, e.1.1, e.1.2@, e.1.3)))
}

/// The queue after the steps from `spot` (reached by `path`, at cost
/// `oldcost`) onto neighbours `ns` are queued in turn: each neighbour not
/// marked and with a way in, weighed by the cost so far plus the taxicab
/// distance left.
pub open spec fn push_nbrs(
    g: Seq<Seq<Square>>,
    dest: Coord,
    q: Seq<QEntry>,
    t: Seq<Seq<bool>>,
    spot: Coord,
    path: Seq<Move>,
    oldcost: usize,
    ns: Seq<(Coord, Move)>,
) -> Seq<QEntry>
    decreases ns.len(),
{
    if ns.len() == 0 {
        q
    } else {
        let q1 = push_nbrs(g, dest, q, t, spot, path, oldcost, ns.drop_last());
        let n = ns.last().0;
        let m = ns.last().1;
        let c = spec_cost(g, spot, n, m);
        if !is_marked(t, n) && c != 0 {
            let newcost = usize_specs::wrapping_add(oldcost, c);
            queued(q1, (n, m, path, newcost), usize_specs::wrapping_add(newcost, spec_distance(dest, n)))
        } else {
            q1
        }
    }
}

/// What the best-first search from queue `q` and marks `t` answers: it takes
/// the first step off the queue; passes over it when its square is marked;
/// when the square is `dest`, answers the way there if the robot survives
/// it, and goes on if not; otherwise marks the square and queues the steps
/// onto its neighbours. Nothing when the queue runs dry.
pub open spec fn astar(s: StateView, dest: Coord, q: Seq<QEntry>, t: Seq<Seq<bool>>) -> Option<Seq<Move>>
    decreases unmarked(t, t.len() as int), q.len(),
{
    if q.len() == 0 || !rect(s.grid) || !table_ok(s.grid, t) {
        None
    } else {
        let spot = q[0].1.0;
        let m = q[0].1.1;
        let path = q[0].1.2;
        let oldcost = q[0].1.3;
        let rest = q.drop_first();
        if !inb(s.grid, spot.0 as int, spot.1 as int) || is_marked(t, spot) {
            astar(s, dest, rest, t)
        } else {
            let p2 = path.push(m);
            if spot == dest {
                if survives(s, p2) {
                    Some(p2)
                } else {
                    astar(s, dest, rest, t)
                }
            } else {
                let t2 = mark(t, spot);
                proof {
                    lemma_mark_count(s.grid, t, spot);
                }
                astar(s, dest, push_nbrs(s.grid, dest, rest, t2, spot, p2, oldcost, grid_neighbors(s.grid, spot)), t2)
            }
        }
    }
}

/// The way the search finds from the robot to `dest`: it starts with one
/// step, a wait at the robot's square, and no square marked.
pub open spec fn astar_answer(s: StateView, dest: Coord) -> Option<Seq<Move>> {
    let src = (s.robot.0 as usize, s.robot.1 as usize);
    astar(s, dest, seq![(1usize, (src, Move::W, Seq::<Move>::empty(), 0usize))], clear_table(s.grid))
}

/// Queuing commutes with viewing the queue.
proof fn lemma_qview_queued(q: Seq<(usize, AstarHelp)>, e: AstarHelp, prio: usize)
    ensures
        qview(queued(q, e, prio)) == queued(qview(q), (e.0, e.1, e.2@, e.3), prio),
{
    lemma_first_prio_view(q, prio);
    lemma_first_prio_range(q, prio);
    let i = first_prio_at_least(q, prio);
    if i < q.len() {
        assert(qview(q.insert(i + 1, (prio, e))) =~= qview(q).insert(i + 1, (prio, (e.0, e.1, e.2@, e.3))));
    } else {
        assert(qview(q.push((prio, e))) =~= qview(q).push((prio, (e.0, e.1, e.2@, e.3))));
    }
}

proof fn lemma_first_prio_view(q: Seq<(usize, AstarHelp)>, prio: usize)
    ensures
        first_prio_at_least(qview(q), prio) == first_prio_at_least(q, prio),
    decreases q.len(),
{
    if q.len() > 0 {
        assert(qview(q).drop_first() =~= qview(q.drop_first()));
        lemma_first_prio_view(q.drop_first(), prio);
    }
}

/// Searches best first for a way from the robot to `dest`: each queued
/// step is weighed by what the way cost so far plus the taxicab distance
/// left. A way that reaches `dest` is walked (it starts with a wait); when
/// the robot does not survive it the search goes on.
pub fn navigar(s: &State, dest: Coord) -> (res: Option<(State, Path)>)
    requires
        sound(s@),
    ensures
        res matches Some((s2, p)) ==> {
            &&& p@.len() >= 1
            &&& p@[0] == Move::W
            &&& walk_end(s@.robot, p@.drop_first()) == (dest.0 as int, dest.1 as int)
            &&& room(s@, p@.len() as int)
            &&& spec_apply(s@, p@, false) == StepView::Stepped(s2@)
            &&& sound(s2@)
            &&& room(s2@, 0)
        },
        astar_answer(s@, dest) == match res {
            Some((s2, p)) => Some(p@),
            None => None,
        },
{
    let ghost g = s@.grid;
    let src = s.robotpos;
    proof {
        s.grid.lemma_lens_fit();
    }
    let mut visited = unmarked_table(s.grid.rows.len(), s.grid.rows[0].len());
    let mut pq: Pq<AstarHelp> = create::<(usize, AstarHelp)>();
    let first: AstarHelp = (src, Move::W, Vec::new(), 0);
    let ghost fg = first;
    pqins(&mut pq, first, 1);
    let ghost answer = astar_answer(s@, dest);
    proof {
        assert(pq@.len() == 1);
        assert(pq@[0].1 == fg);
        assert(step_ok(g, src, fg));
        assert(tview(visited@) =~= clear_table(g));
        assert(qview(pq@) =~= seq![(1usize, (src, Move::W, Seq::<Move>::empty(), 0usize))]);
        assert(src == (s@.robot.0 as usize, s@.robot.1 as usize));
    }
    while !pq.is_empty()
        invariant
            sound(s@),
            g == s@.grid,
            src == s.robotpos,
            pq.wf(),
            visited@.len() == g.len(),
            forall|y: int| 0 <= y < g.len() ==> (#[trigger] visited@[y])@.len() == g[0].len(),
            forall|k: int| 0 <= k < pq@.len() ==> step_ok(g, src, #[trigger] pq@[k].1),
            answer == astar_answer(s@, dest),
            answer == astar(s@, dest, qview(pq@), tview(visited@)),
        decreases unmarked(tview(visited@), g.len() as int), pq@.len(),
    {
        let ghost before = pq@;
        let ghost t0 = tview(visited@);
        proof {
            assert(table_ok(g, t0));
            assert(qview(before).len() == before.len());
        }
        let popped = pq_pop(&mut pq);
        let (_, (spot, m, mut path, oldcost)) = popped.unwrap();
        proof {
            assert(step_ok(g, src, before[0].1));
            assert(forall|k: int| 0 <= k < pq@.len() ==> pq@[k] == before[k + 1]);
            assert(qview(pq@) =~= qview(before).drop_first());
            assert(qview(before)[0].1 == (spot, m, path@, oldcost));
        }
        let (sx, sy) = spot;
        proof {
            assert(visited@[sy - 1]@.len() == g[0].len());
            assert(g[sy - 1].len() == g[0].len());
            assert(is_marked(t0, spot) == visited@[sy - 1]@[sx - 1]);
        }
        if visited[sy - 1][sx - 1] {
            continue;
        }
        let ghost pre_path = path@;
        path.push(m);
        proof {
            if pre_path.len() == 0 {
                assert(path@.drop_first() =~= Seq::<Move>::empty());
            } else {
                assert(path@.drop_first() =~= pre_path.drop_first().push(m));
            }
        }
        if spot.0 == dest.0 && spot.1 == dest.1 {
            let mut newstate = state_apply(s, &path);
            match newstate {
                Some(ns) => {
                    return Some((ns, path));
                },
                None => {
                    newstate = state_apply(s, &path);
                    match newstate {
                        Some(ns) => {
                            return Some((ns, path));
                        },
                        None => {},
                    }
                },
            }
            continue;
        }
        let ghost vis0 = visited@;
        let mut row = visited[sy - 1].clone();
        row.set(sx - 1, true);
        visited.set(sy - 1, row);
        let ghost t2 = tview(visited@);
        proof {
            assert(t2 =~= mark(t0, spot));
            lemma_mark_count(g, t0, spot);
            assert(unmarked(tview(visited@), g.len() as int) < unmarked(t0, g.len() as int));
        }
        let spot_ = spot;
        let ns = neighbors_of(&s.grid, spot_);
        let ghost mid = pq@;
        let ghost rest = qview(mid);
        let mut j: usize = 0;
        while j < ns.len()
            invariant
                sound(s@),
                g == s@.grid,
                src == s.robotpos,
                pq.wf(),
                visited@.len() == g.len(),
                forall|y: int| 0 <= y < g.len() ==> (#[trigger] visited@[y])@.len() == g[0].len(),
                forall|k: int| 0 <= k < pq@.len() ==> step_ok(g, src, #[trigger] pq@[k].1),
                inb(g, spot_.0 as int, spot_.1 as int),
                path@.len() >= 1,
                path@[0] == Move::W,
                walk_end((src.0 as int, src.1 as int), path@.drop_first()) == (spot_.0 as int, spot_.1 as int),
                forall|k: int|
                    0 <= k < ns@.len() ==> {
                        &&& is_step((#[trigger] ns@[k]).1)
                        &&& inb(g, ns@[k].0.0 as int, ns@[k].0.1 as int)
                        &&& (ns@[k].0.0 as int, ns@[k].0.1 as int) == (spot_.0 + delta(ns@[k].1).0, spot_.1 + delta(ns@[k].1).1)
                    },
                j <= ns@.len(),
                tview(visited@) == t2,
                qview(pq@) == push_nbrs(g, dest, rest, t2, spot_, path@, oldcost, ns@.take(j as int)),
            decreases ns@.len() - j,
        {
            let (n, m_) = ns[j];
            let (nx, ny) = n;
            proof {
                assert(visited@[ny - 1]@.len() == g[0].len());
                assert(g[ny - 1].len() == g[0].len());
                assert(ns@.take(j + 1).drop_last() =~= ns@.take(j as int));
                assert(ns@.take(j + 1).last() == (n, m_));
                assert(is_marked(t2, n) == visited@[ny - 1]@[nx - 1]);
            }
            let ghost pb = pq@;
            if !visited[ny - 1][nx - 1] {
                let tempcost = cost(s, spot_, n, m_);
                if tempcost != 0 {
                    let newcost = oldcost.wrapping_add(tempcost);
                    let entry = (n, m_, path.clone(), newcost);
                    proof {
                        assert(entry.2@ == path@);
                        assert(path@.drop_first().push(m_).drop_last() =~= path@.drop_first());
                        assert(walk_end((src.0 as int, src.1 as int), path@.drop_first().push(m_)) == (n.0 as int, n.1 as int));
                        assert(step_ok(g, src, entry));
                    }
                    let prio = newcost.wrapping_add(distance(dest, n));
                    let ghost eg = entry;
                    pqins(&mut pq, entry, prio);
                    proof {
                        lemma_queued_elems(pb, eg, prio);
                        lemma_qview_queued(pb, eg, prio);
                        assert forall|k: int| 0 <= k < pq@.len() implies step_ok(g, src, #[trigger] pq@[k].1) by {
                            if pq@[k] != (prio, eg) {
                                let kk = choose|kk: int| 0 <= kk < pb.len() && pb[kk] == pq@[k];
                                assert(step_ok(g, src, pb[kk].1));
                            }
                        }
                    }
                }
            }
            j += 1;
        }
        proof {
            assert(ns@.take(ns@.len() as int) =~= ns@);
            assert(qview(before)[0].1.2.push(qview(before)[0].1.1) == path@);
        }
    }
    None
}

/// The lambdas not yet tried, nearest (by taxicab distance) first, and the
/// state they are sought from.
pub struct Paths {
    pub s: State,
    pub targets: Pq<Coord>,
}

/// Lambdas `ls` queued in turn by their taxicab distance from `src`.
pub open spec fn lambda_queue(src: Coord, ls: Seq<Coord>) -> Seq<(usize, Coord)>
    decreases ls.len(),
{
    if ls.len() == 0 {
        Seq::empty()
    } else {
        queued(lambda_queue(src, ls.drop_last()), ls.last(), spec_distance(src, ls.last()))
    }
}

/// What the A* generator hands out next from `s` with lambdas `q` still to
/// try: the way to the first of them the search finds one to, and the
/// lambdas after it; nothing when it finds none.
pub open spec fn astar_next(s: StateView, q: Seq<(usize, Coord)>) -> (Seq<(usize, Coord)>, Option<Seq<Move>>)
    decreases q.len(),
{
    if q.len() == 0 {
        (q, None)
    } else {
        match astar_answer(s, q[0].1) {
            Some(p) => (q.drop_first(), Some(p)),
            None => astar_next(s, q.drop_first()),
        }
    }
}

/// The paths the A* generator hands out from `s`, one after the other until
/// it runs dry, with lambdas `q` still to try.
pub open spec fn astar_walks(s: StateView, q: Seq<(usize, Coord)>) -> Seq<Seq<Move>>
    decreases q.len(),
{
    let x = astar_next(s, q);
    match x.1 {
        Some(p) => if x.0.len() < q.len() {
            seq![p] + astar_walks(s, x.0)
        } else {
            seq![p]
        },
        None => Seq::empty(),
    }
}

/// What `n` calls of the A* generator answer, in order, from `s` with
/// lambdas `q` still to try.
pub open spec fn astar_answers(s: StateView, q: Seq<(usize, Coord)>, n: nat) -> Seq<Option<Seq<Move>>>
    decreases n,
{
    if n == 0 {
        Seq::empty()
    } else {
        let x = astar_next(s, q);
        seq![x.1] + astar_answers(s, x.0, (n - 1) as nat)
    }
}

/// How many answers of `a` are paths.
pub open spec fn path_count(a: Seq<Option<Seq<Move>>>) -> nat
    decreases a.len(),
{
    if a.len() == 0 {
        0
    } else {
        (if a[0] is Some { 1nat } else { 0nat }) + path_count(a.drop_first())
    }
}

proof fn lemma_first_prio_bound<T>(s: Seq<(usize, T)>, prio: usize)
    ensures
        0 <= first_prio_at_least(s, prio) <= s.len(),
    decreases s.len(),
{
    if s.len() > 0 && s[0].0 < prio {
        lemma_first_prio_bound(s.drop_first(), prio);
    }
}

proof fn lemma_queued_len<T>(s: Seq<(usize, T)>, x: T, prio: usize)
    ensures
        queued(s, x, prio).len() == s.len() + 1,
{
    lemma_first_prio_bound(s, prio);
}

proof fn lemma_lambda_queue_len(src: Coord, ls: Seq<Coord>)
    ensures
        lambda_queue(src, ls).len() == ls.len(),
    decreases ls.len(),
{
    if ls.len() > 0 {
        lemma_lambda_queue_len(src, ls.drop_last());
        lemma_queued_len(lambda_queue(src, ls.drop_last()), ls.last(), spec_distance(src, ls.last()));
    }
}

proof fn lemma_astar_next_len(s: StateView, q: Seq<(usize, Coord)>)
    ensures
        astar_next(s, q).1 is Some ==> astar_next(s, q).0.len() < q.len(),
        astar_next(s, q).1 is None ==> astar_next(s, q).0.len() == 0,
    decreases q.len(),
{
    if q.len() > 0 && astar_answer(s, q[0].1) is None {
        lemma_astar_next_len(s, q.drop_first());
    }
}

proof fn lemma_astar_dry(s: StateView, q: Seq<(usize, Coord)>, n: nat)
    requires
        q.len() == 0,
    ensures
        astar_answers(s, q, n).len() == n,
        forall|j: int| 0 <= j < n ==> #[trigger] astar_answers(s, q, n)[j] is None,
        path_count(astar_answers(s, q, n)) == 0,
    decreases n,
{
    if n > 0 {
        lemma_astar_dry(s, q, (n - 1) as nat);
        let a = astar_answers(s, q, n);
        assert(a.drop_first() =~= astar_answers(s, q, (n - 1) as nat));
    }
}

/// The A* generator runs dry: over any number of calls, from a state `s`
/// with lambdas `ls` queued by their distance from `src`, it hands out at
/// most one path per lambda, and once it answers nothing it answers
/// nothing ever after.
pub proof fn law_astar_runs_dry(s: StateView, src: Coord, ls: Seq<Coord>, n: nat)
    ensures
        astar_answers(s, lambda_queue(src, ls), n).len() == n,
        path_count(astar_answers(s, lambda_queue(src, ls), n)) <= ls.len(),
        forall|i: int, j: int|
            0 <= i <= j < n && (#[trigger] astar_answers(s, lambda_queue(src, ls), n)[i]) is None
                ==> (#[trigger] astar_answers(s, lambda_queue(src, ls), n)[j]) is None,
{
    lemma_lambda_queue_len(src, ls);
    lemma_astar_answers(s, lambda_queue(src, ls), n);
}

proof fn lemma_astar_answers(s: StateView, q: Seq<(usize, Coord)>, n: nat)
    ensures
        astar_answers(s, q, n).len() == n,
        path_count(astar_answers(s, q, n)) <= q.len(),
        forall|i: int, j: int|
            0 <= i <= j < n && (#[trigger] astar_answers(s, q, n)[i]) is None
                ==> (#[trigger] astar_answers(s, q, n)[j]) is None,
    decreases n,
{
    if n > 0 {
        let x = astar_next(s, q);
        let a = astar_answers(s, q, n);
        let rest = astar_answers(s, x.0, (n - 1) as nat);
        lemma_astar_next_len(s, q);
        lemma_astar_answers(s, x.0, (n - 1) as nat);
        assert(a.drop_first() =~= rest);
        assert(a[0] == x.1);
        if x.1 is None {
            lemma_astar_dry(s, x.0, (n - 1) as nat);
        }
        assert forall|i: int, j: int| 0 <= i <= j < n && (#[trigger] a[i]) is None implies (#[trigger] a[j]) is None by {
            if j > 0 {
                assert(a[j] == rest[j - 1]);
                if i > 0 {
                    assert(a[i] == rest[i - 1]);
                }
            }
        }
    }
}

/// The A* generator of paths from `s`: the lambdas queued by taxicab
/// distance from the robot.
pub fn get_paths(s: &State) -> (ps: Paths)
    requires
        sound(s@),
    ensures
        ps.s@ == s@,
        ps.targets.wf(),
        ps.targets@ == lambda_queue(s.robotpos, lambda_coords(coord_cells(s@.grid))),
{
    let mut targets: Pq<Coord> = create::<(usize, Coord)>();
    let ls = s.grid.lambdas();
    let mut i: usize = 0;
    proof {
        assert(ls@.take(0) =~= Seq::<Coord>::empty());
    }
    while i < ls.len()
        invariant
            i <= ls@.len(),
            targets.wf(),
            targets@ == lambda_queue(s.robotpos, ls@.take(i as int)),
        decreases ls@.len() - i,
    {
        let target = ls[i];
        proof {
            assert(ls@.take(i + 1).drop_last() =~= ls@.take(i as int));
            assert(ls@.take(i + 1).last() == target);
        }
        pqins(&mut targets, target, distance(s.robotpos, target));
        i += 1;
    }
    proof {
        assert(ls@.take(i as int) =~= ls@);
    }
    Paths { s: s.copy(), targets }
}

impl Paths {
    /// The way to the nearest lambda not yet tried that the search finds and
    /// the robot survives: the state it leads to and its moves.
    pub fn next(&mut self) -> (res: Option<(State, Path)>)
        requires
            sound(old(self).s@),
            old(self).targets.wf(),
        ensures
            final(self).s@ == old(self).s@,
            final(self).targets.wf(),
            res matches Some((s2, p)) ==> {
                &&& p@.len() >= 1
                &&& room(old(self).s@, p@.len() as int)
                &&& spec_apply(old(self).s@, p@, false) == StepView::Stepped(s2@)
                &&& sound(s2@)
                &&& room(s2@, 0)
            },
            res is Some ==> final(self).targets@.len() < old(self).targets@.len(),
            astar_next(old(self).s@, old(self).targets@) == (final(self).targets@, match res {
                Some((s2, p)) => Some(p@),
                None => None,
            }),
            forall|n: nat|
                #[trigger] astar_answers(old(self).s@, old(self).targets@, n + 1) == seq![
                    match res {
                        Some((s2, p)) => Some(p@),
                        None => None,
                    },
                ] + astar_answers(final(self).s@, final(self).targets@, n),
    {
        loop
            invariant
                sound(self.s@),
                self.s@ == old(self).s@,
                self.targets.wf(),
                self.targets@.len() <= old(self).targets@.len(),
                astar_next(old(self).s@, old(self).targets@) == astar_next(self.s@, self.targets@),
            decreases self.targets@.len(),
        {
            if self.targets.is_empty() {
                return None;
            }
            let ghost q = self.targets@;
            let popped = self.targets.pop();
            let (_, (x, y)) = popped.unwrap();
            let result = navigar(&self.s, (x, y));
            if result.is_none() {
                continue;
            }
            return result;
        }
    }
}

/// The A* path finder.
pub fn mk() -> (f: crate::path_find::PathFind)
    ensures
        f == crate::path_find::PathFind::Astar,
{
    crate::path_find::PathFind::Astar
}

} // verus!
