//! The driver's logic: telling known maps apart, the text of a plan, and
//! the interactive game, one key at a time.

use vstd::prelude::*;
use crate::state::{
    Move, State, StateView, StepResult, char_move, lemma_sound_step_defined, law_step_keeps_sound,
    move_char, move_from_char, rect, render, room, sound,
};

verus! {

/// Whether two states have the same grid.
pub fn compare_states(s1: &State, s2: &State) -> (b: bool)
    requires
        rect(s1@.grid),
        rect(s2@.grid),
    ensures
        b == (s1@.grid == s2@.grid),
{
    let ghost g1 = s1@.grid;
    let ghost g2 = s2@.grid;
    if s1.grid.rows.len() != s2.grid.rows.len() {
        return false;
    } else if s1.grid.rows[0].len() != s2.grid.rows[0].len() {
        assert(g1[0].len() != g2[0].len());
        return false;
    } else {
        let h = s1.grid.rows.len();
        let w = s1.grid.rows[0].len();
        let mut i: usize = 0;
        while i < h
            invariant
                g1 == s1@.grid,
                g2 == s2@.grid,
                rect(g1),
                rect(g2),
                h == g1.len(),
                h == g2.len(),
                w == g1[0].len(),
                w == g2[0].len(),
                i <= h,
                forall|r: int| 0 <= r < i ==> #[trigger] g1[r] == g2[r],
            decreases h - i,
        {
            assert(g1[i as int].len() == w && g2[i as int].len() == w);
            let mut j: usize = 0;
            while j < w
                invariant
                    g1 == s1@.grid,
                    g2 == s2@.grid,
                    i < h,
                    h == g1.len(),
                    h == g2.len(),
                    g1[i as int].len() == w,
                    g2[i as int].len() == w,
                    j <= w,
                    forall|c: int| 0 <= c < j ==> g1[i as int][c] == g2[i as int][c],
                decreases w - j,
            {
                if s1.grid.rows[i][j] != s2.grid.rows[i][j] {
                    assert(g1[i as int][j as int] != g2[i as int][j as int]);
                    return false;
                }
                j += 1;
            }
            assert(g1[i as int] =~= g2[i as int]);
            i += 1;
        }
        assert(g1 =~= g2);
    }
    true
}

/// The names of the maps with known plans.
pub fn get_known_maps() -> (v: Vec<&'static str>)
    ensures
        v@.len() == 15,
        v@[0]@ == "contest10.map"@,
        v@[1]@ == "contest1.map"@,
        v@[2]@ == "contest2.map"@,
        v@[3]@ == "contest3.map"@,
        v@[4]@ == "contest4.map"@,
        v@[5]@ == "contest5.map"@,
        v@[6]@ == "contest6.map"@,
        v@[7]@ == "contest7.map"@,
        v@[8]@ == "contest8.map"@,
        v@[9]@ == "contest9.map"@,
        v@[10]@ == "flood1.map"@,
        v@[11]@ == "flood2.map"@,
        v@[12]@ == "flood3.map"@,
        v@[13]@ == "flood4.map"@,
        v@[14]@ == "flood5.map"@,
{
    vec![
        "contest10.map",
        "contest1.map",
        "contest2.map",
        "contest3.map",
        "contest4.map",
        "contest5.map",
        "contest6.map",
        "contest7.map",
        "contest8.map",
        "contest9.map",
        "flood1.map",
        "flood2.map",
        "flood3.map",
        "flood4.map",
        "flood5.map",
    ]
}

/// The first of the known boards whose grid is that of `s1`, if any.
pub fn find_known(s1: &State, boards: &Vec<State>) -> (r: Option<usize>)
    requires
        rect(s1@.grid),
        forall|i: int| 0 <= i < boards@.len() ==> rect(#[trigger] boards@[i]@.grid),
    ensures
        r matches Some(i) ==> i < boards@.len() && boards@[i as int]@.grid == s1@.grid && forall|j: int|
            0 <= j < i ==> (#[trigger] boards@[j])@.grid != s1@.grid,
        r is None ==> forall|j: int| 0 <= j < boards@.len() ==> (#[trigger] boards@[j])@.grid != s1@.grid,
{
    let mut i: usize = 0;
    while i < boards.len()
        invariant
            i <= boards@.len(),
            rect(s1@.grid),
            forall|k: int| 0 <= k < boards@.len() ==> rect(#[trigger] boards@[k]@.grid),
            forall|j: int| 0 <= j < i ==> (#[trigger] boards@[j])@.grid != s1@.grid,
        decreases boards@.len() - i,
    {
        if compare_states(s1, &boards[i]) {
            return Some(i);
        }
        i += 1;
    }
    None
}

/// The letters of the moves, in order.
pub fn moves_text(moves: &Vec<Move>) -> (s: String)
    ensures
        s@ == moves@.map_values(|m: Move| move_char(m)),
{
    let mut s = String::new();
    let mut i: usize = 0;
    while i < moves.len()
        invariant
            i <= moves@.len(),
            s@ == moves@.take(i as int).map_values(|m: Move| move_char(m)),
        decreases moves@.len() - i,
    {
        s.append(moves[i].to_str());
        proof {
            assert(moves@.take(i + 1).map_values(|m: Move| move_char(m)) =~= moves@.take(i as int).map_values(
                |m: Move| move_char(m),
            ).push(move_char(moves@[i as int])));
        }
        i += 1;
    }
    proof {
        assert(moves@.take(i as int) =~= moves@);
    }
    s
}

/// The interactive game: the states so far (the current one last), the
/// moves made, the engine's plan and how far it has been followed.
pub struct Human {
    pub hist: Vec<State>,
    pub moves: Vec<Move>,
    pub bot_n: usize,
    pub robot_plan: Option<Vec<Move>>,
}

/// What the player does: press a key, close the input, or (when asked)
/// hand over the engine's plan from the current state.
pub enum HumanEvent {
    Key(char),
    Eof,
    Plan(Vec<Move>),
}

/// What the game answers.
pub enum HumanAction {
    /// Nothing to show.
    Nothing,
    /// Show this text.
    Show(String),
    /// Plan from the current state with the engine, and hand the plan over.
    NeedPlan,
    /// The game ended with these points; the moves made, as text.
    Finished(i64, String),
    /// The robot died, or the counters had no room for the move; the game
    /// is over.
    Oops,
}

/// The game is in order: it has a current state, a move made for each state
/// after the first, and every state is sound with room left.
pub open spec fn human_ok(h: &Human) -> bool {
    &&& h.hist@.len() >= 1
    &&& h.moves@.len() + 1 >= h.hist@.len()
    &&& forall|i: int| 0 <= i < h.hist@.len() ==> sound(#[trigger] h.hist@[i]@) && room(h.hist@[i]@, 0)
}

/// A game that starts in `init`.
pub fn human_start(init: State) -> (h: Human)
    requires
        sound(init@),
        room(init@, 0),
    ensures
        human_ok(&h),
        h.hist@.len() == 1,
        h.hist@[0]@ == init@,
        h.moves@.len() == 0,
        h.robot_plan is None,
{
    Human { hist: vec![init], moves: Vec::new(), bot_n: 0, robot_plan: None }
}

/// The keys and plans a game can take: a key names a move (or is one of
/// `p`, `n` and the newline), `n` has a plan move left to take, and a plan
/// handed over is not empty.
pub open spec fn human_event_ok(h: &Human, ev: HumanEvent) -> bool {
    match ev {
        HumanEvent::Key(c) => if c == 'p' || c == '\n' {
            true
        } else if c == 'n' {
            h.robot_plan matches Some(p) ==> h.bot_n < p@.len()
        } else {
            char_move(c) is Some
        },
        HumanEvent::Eof => true,
        HumanEvent::Plan(p) => p@.len() >= 1,
    }
}

/// The key of a key event.
pub open spec fn key_of(ev: HumanEvent) -> char {
    match ev {
        HumanEvent::Key(c) => c,
        _ => ' ',
    }
}

/// What making move `m` does to the states `h0` (the current one last),
/// giving `h1` and answering `a`: with no room for the move, the game is
/// over; a move the game goes on from adds its state; one that ends the game
/// finishes it with its points and the moves made.
pub open spec fn played(h0: Seq<State>, h1: Seq<State>, m: Move, moves: Seq<Move>, a: HumanAction) -> bool {
    let cur = h0.last()@;
    if !room(cur, 1) {
        h1 == h0 && a is Oops
    } else {
        match crate::state::spec_step(cur, m, false) {
            crate::state::StepView::Stepped(s2) => h1.len() == h0.len() + 1 && h1.drop_last() == h0
                && h1.last()@ == s2 && a is Nothing,
            crate::state::StepView::Endgame(p) => h1 == h0 && (a matches HumanAction::Finished(q, t) && q == p
                && t@ == moves.map_values(|mv: Move| move_char(mv))),
            crate::state::StepView::Oops => h1 == h0 && a is Oops,
        }
    }
}

/// Whether the game can take key `c` now (see `human_event_ok`).
pub fn key_accepted(h: &Human, c: char) -> (b: bool)
    ensures
        b == human_event_ok(h, HumanEvent::Key(c)),
{
    if c == 'p' || c == '\n' {
        true
    } else if c == 'n' {
        match &h.robot_plan {
            Some(p) => h.bot_n < p.len(),
            None => true,
        }
    } else {
        c == 'u' || c == 'U' || c == 'd' || c == 'D' || c == 'l' || c == 'L' || c == 'r' || c == 'R'
            || c == 'w' || c == 'W' || c == 'a' || c == 'A'
    }
}

impl Human {
    /// Makes `m` in the current state: a move the game goes on from becomes
    /// the current state; one that ends the game finishes it.
    fn play(&mut self, m: Move) -> (a: HumanAction)
        requires
            human_ok(old(self)),
            old(self).moves@.len() >= old(self).hist@.len() || m == Move::A,
        ensures
            human_ok(final(self)),
            final(self).moves@ == old(self).moves@,
            final(self).robot_plan == old(self).robot_plan,
            final(self).bot_n == old(self).bot_n,
            played(old(self).hist@, final(self).hist@, m, old(self).moves@, a),
    {
        let cur = &self.hist[self.hist.len() - 1];
        proof {
            assert(sound(self.hist@[self.hist@.len() - 1]@));
        }
        if !cur.has_room(1) {
            return HumanAction::Oops;
        }
        proof {
            lemma_sound_step_defined(cur@, m);
            law_step_keeps_sound(cur@, m, false, 1);
        }
        match cur.step(m, false) {
            StepResult::Stepped(newstate) => {
                let ghost h0 = self.hist@;
                self.hist.push(newstate);
                proof {
                    assert(self.hist@.drop_last() =~= h0);
                }
                HumanAction::Nothing
            },
            StepResult::Endgame(score) => HumanAction::Finished(score, moves_text(&self.moves)),
            StepResult::Oops => HumanAction::Oops,
        }
    }

    /// Takes one event: `p` takes back the last move (and drops the plan);
    /// `n` makes the engine's next move (asking for a plan when there is
    /// none); the newline shows the current state; the end of the input
    /// aborts; any other key makes the move it names (and drops the plan).
    pub fn step(&mut self, ev: HumanEvent) -> (a: HumanAction)
        requires
            human_ok(old(self)),
            human_event_ok(old(self), ev),
        ensures
            human_ok(final(self)),
            ev is Key && key_of(ev) == 'p' ==> {
                &&& a is Nothing
                &&& final(self).robot_plan is None
                &&& final(self).bot_n == old(self).bot_n
                &&& old(self).hist@.len() > 1 ==> final(self).hist@ == old(self).hist@.drop_last()
                    && final(self).moves@ == old(self).moves@.drop_last()
                &&& old(self).hist@.len() == 1 ==> final(self).hist@ == old(self).hist@ && final(self).moves@
                    == old(self).moves@
            },
            ev is Key && key_of(ev) == '\n' ==> final(self).hist@ == old(self).hist@ && final(self).bot_n
                == old(self).bot_n && (a matches HumanAction::Show(t)
                && t@ == render(old(self).hist@.last()@.grid)),
            ev is Key && key_of(ev) == 'n' && old(self).robot_plan is None ==> a is NeedPlan
                && final(self).bot_n == 0 && final(self).hist@ == old(self).hist@,
            ev is Key && key_of(ev) == 'n' && old(self).robot_plan is Some ==> {
                let mv = old(self).robot_plan->0@[old(self).bot_n as int];
                &&& final(self).moves@ == old(self).moves@.push(mv)
                &&& final(self).bot_n == old(self).bot_n + 1
                &&& final(self).robot_plan == old(self).robot_plan
                &&& played(old(self).hist@, final(self).hist@, mv, final(self).moves@, a)
            },
            ev is Key && key_of(ev) != 'p' && key_of(ev) != '\n' && key_of(ev) != 'n' ==> {
                &&& final(self).moves@ == old(self).moves@.push(char_move(key_of(ev))->0)
                &&& final(self).robot_plan is None
                &&& final(self).bot_n == old(self).bot_n
                &&& played(old(self).hist@, final(self).hist@, char_move(key_of(ev))->0, final(self).moves@, a)
            },
            ev is Eof ==> final(self).robot_plan is None && final(self).moves@ == old(self).moves@
                && final(self).bot_n == old(self).bot_n && played(
                old(self).hist@,
                final(self).hist@,
                Move::A,
                old(self).moves@,
                a,
            ),
            ev matches HumanEvent::Plan(p) ==> {
                &&& final(self).moves@ == old(self).moves@.push(p@[0])
                &&& final(self).robot_plan == Some(p)
                &&& final(self).bot_n == 1
                &&& played(old(self).hist@, final(self).hist@, p@[0], final(self).moves@, a)
            },
    {
        match ev {
            HumanEvent::Key(c) => {
                if c == 'p' {
                    if self.hist.len() > 1 {
                        let _ = self.hist.pop();
                        let _ = self.moves.pop();
                    }
                    self.robot_plan = None;
                    HumanAction::Nothing
                } else if c == 'n' {
                    match &self.robot_plan {
                        Some(plan) => {
                            let m = plan[self.bot_n];
                            // The plan's length, a usize, bounds the index from above.
                            let _ = plan.len();
                            let next = self.bot_n + 1;
                            self.moves.push(m);
                            let a = self.play(m);
                            self.bot_n = next;
                            a
                        },
                        None => {
                            self.bot_n = 0;
                            HumanAction::NeedPlan
                        },
                    }
                } else if c == '\n' {
                    let cur = &self.hist[self.hist.len() - 1];
                    HumanAction::Show(cur.to_str())
                } else {
                    let m = move_from_char(c);
                    self.moves.push(m);
                    let a = self.play(m);
                    self.robot_plan = None;
                    a
                }
            },
            HumanEvent::Eof => {
                let a = self.play(Move::A);
                self.robot_plan = None;
                a
            },
            HumanEvent::Plan(plan) => {
                let m = plan[0];
                self.moves.push(m);
                self.robot_plan = Some(plan);
                let a = self.play(m);
                self.bot_n = 1;
                a
            },
        }
    }
}

/// The move a move-sequence letter names: an upper-case move letter.
pub open spec fn seq_move(c: char) -> Option<Move> {
    if c == 'R' {
        Some(Move::R)
    } else if c == 'L' {
        Some(Move::L)
    } else if c == 'U' {
        Some(Move::U)
    } else if c == 'D' {
        Some(Move::D)
    } else if c == 'A' {
        Some(Move::A)
    } else if c == 'W' {
        Some(Move::W)
    } else {
        None
    }
}

/// The points reported while playing the moves `ms` from `s`: each move
/// that ends the game reports its points, and play goes on from the state
/// before it; each other move moves the game on.
pub open spec fn seq_points(s: StateView, ms: Seq<Move>) -> Seq<i64>
    decreases ms.len(),
{
    if ms.len() == 0 {
        Seq::empty()
    } else {
        match crate::state::spec_step(s, ms[0], false) {
            crate::state::StepView::Stepped(s2) => seq_points(s2, ms.drop_first()),
            crate::state::StepView::Endgame(p) => seq![p as i64] + seq_points(s, ms.drop_first()),
            crate::state::StepView::Oops => Seq::empty(),
        }
    }
}

/// Plays the moves that a string of upper-case move letters names, from
/// `s` (not strictly), and answers the points of each move that ends the
/// game, in order.
pub fn run_moveseq(s: State, moveseq: &str) -> (points: Vec<i64>)
    requires
        sound(s@),
        room(s@, moveseq@.len() as int),
        forall|i: int| 0 <= i < moveseq@.len() ==> (#[trigger] seq_move(moveseq@[i])) is Some,
    ensures
        points@ == seq_points(s@, moveseq@.map_values(|c: char| seq_move(c)->0)),
{
    let cs = crate::text::chars_of(moveseq);
    let ghost ms = moveseq@.map_values(|c: char| seq_move(c)->0);
    let mut state = s;
    let mut points: Vec<i64> = Vec::new();
    let mut i: usize = 0;
    proof {
        assert(ms.skip(0) =~= ms);
    }
    while i < cs.len()
        invariant
            cs@ == moveseq@,
            ms == moveseq@.map_values(|c: char| seq_move(c)->0),
            forall|k: int| 0 <= k < moveseq@.len() ==> (#[trigger] seq_move(moveseq@[k])) is Some,
            i <= cs@.len(),
            sound(state@),
            room(state@, cs@.len() - i),
            seq_points(s@, ms) == points@ + seq_points(state@, ms.skip(i as int)),
        decreases cs@.len() - i,
    {
        let c = cs[i];
        let mv = if c == 'R' {
            Move::R
        } else if c == 'L' {
            Move::L
        } else if c == 'U' {
            Move::U
        } else if c == 'D' {
            Move::D
        } else if c == 'A' {
            Move::A
        } else {
            Move::W
        };
        let ghost rest = ms.skip(i as int);
        proof {
            assert(seq_move(moveseq@[i as int]) is Some);
            assert(rest[0] == mv);
            assert(rest.drop_first() =~= ms.skip(i + 1));
            lemma_sound_step_defined(state@, mv);
            law_step_keeps_sound(state@, mv, false, cs@.len() - i);
        }
        match state.step(mv, false) {
            StepResult::Stepped(ns) => {
                state = ns;
            },
            StepResult::Endgame(pts) => {
                let ghost pre = points@;
                points.push(pts);
                proof {
                    assert(pre + (seq![pts] + seq_points(state@, ms.skip(i + 1))) =~= points@ + seq_points(
                        state@,
                        ms.skip(i + 1),
                    ));
                }
            },
            StepResult::Oops => {
                proof {
                    assert(false);
                }
            },
        }
        i += 1;
    }
    proof {
        assert(ms.skip(i as int) =~= Seq::<Move>::empty());
        assert(points@ + Seq::<i64>::empty() =~= points@);
    }
    points
}

/// A move that lets the game go on adds exactly one state, so taking it
/// back gives the states before it.
pub proof fn law_move_then_undo(h0: Seq<State>, h1: Seq<State>, m: Move, moves: Seq<Move>, a: HumanAction)
    requires
        played(h0, h1, m, moves, a),
        a is Nothing,
    ensures
        h1.len() == h0.len() + 1,
        h1.drop_last() == h0,
{
}

} // verus!
