//! A precise path finder: it plays the paths of another finder strictly, and
//! when a move would fail it stops there and goes on with a fresh path from
//! the state reached.

use vstd::prelude::*;
use crate::path::{Path, apply, apply_defined, law_apply_keeps_sound, spec_apply};
use crate::path_find::{BaseFind, BaseGen, base_walks, first_walk, fresh_walks, walked};
use crate::play::{lemma_apply_concat, lemma_apply_score};
use crate::state::{Move, State, StateView, StepResult, StepView, room, sound, spec_step};

verus! {

/// What playing `p` strictly from `s` plays: the moves made (up to and
/// including one that ends the game, but not one that fails), and the
/// outcome.
pub open spec fn applied(s: StateView, p: Seq<Move>, strict: bool) -> (Seq<Move>, StepView)
    decreases p.len(),
{
    if p.len() == 0 {
        (Seq::empty(), StepView::Stepped(s))
    } else {
        match spec_step(s, p[0], strict) {
            StepView::Stepped(s2) => {
                let r = applied(s2, p.drop_first(), strict);
                (seq![p[0]] + r.0, r.1)
            },
            StepView::Endgame(pts) => (seq![p[0]], StepView::Endgame(pts)),
            StepView::Oops => (Seq::empty(), StepView::Oops),
        }
    }
}

/// The outcome of `applied` is that of playing the whole path; when the
/// path fails, the moves made are a part of it that lets the game go on.
pub proof fn lemma_applied(s: StateView, p: Seq<Move>, strict: bool)
    ensures
        applied(s, p, strict).1 == spec_apply(s, p, strict),
        applied(s, p, strict).0.len() <= p.len(),
        applied(s, p, strict).1 is Oops ==> spec_apply(s, applied(s, p, strict).0, strict) is Stepped,
    decreases p.len(),
{
    if p.len() > 0 {
        if let StepView::Stepped(s2) = spec_step(s, p[0], strict) {
            lemma_applied(s2, p.drop_first(), strict);
            let r = applied(s2, p.drop_first(), strict);
            let q = seq![p[0]] + r.0;
            assert(q[0] == p[0]);
            assert(q.drop_first() =~= r.0);
        }
    }
}

/// A move that goes well when played strictly goes the same way when not.
pub proof fn lemma_strict_step(s: StateView, m: Move)
    ensures
        spec_step(s, m, true) is Stepped ==> spec_step(s, m, false) == spec_step(s, m, true),
{
}

/// A path that goes well when played strictly goes the same way when not.
pub proof fn lemma_strict_apply(s: StateView, p: Seq<Move>)
    ensures
        spec_apply(s, p, true) is Stepped ==> spec_apply(s, p, false) == spec_apply(s, p, true),
    decreases p.len(),
{
    if p.len() > 0 {
        lemma_strict_step(s, p[0]);
        if let StepView::Stepped(s2) = spec_step(s, p[0], true) {
            lemma_strict_apply(s2, p.drop_first());
        }
    }
}

/// Plays `p` from `st`: answers the moves made (up to and including one that
/// ends the game, but not one that fails) and the outcome.
pub fn path_apply(p: &Path, st: &State, strict: bool) -> (res: (Path, StepResult))
    requires
        apply_defined(st@, p@, strict),
    ensures
        (res.0@, res.1@) == applied(st@, p@, strict),
{
    let mut cur = st.copy();
    let mut moves: Vec<Move> = Vec::new();
    let mut i: usize = 0;
    proof {
        assert(p@.skip(0) =~= p@);
    }
    while i < p.len()
        invariant
            i <= p@.len(),
            applied(st@, p@, strict) == (moves@ + applied(cur@, p@.skip(i as int), strict).0, applied(
                cur@,
                p@.skip(i as int),
                strict,
            ).1),
            apply_defined(cur@, p@.skip(i as int), strict),
        decreases p@.len() - i,
    {
        let ghost rest = p@.skip(i as int);
        let the_move = p[i];
        proof {
            assert(rest[0] == the_move);
            assert(rest.drop_first() =~= p@.skip(i + 1));
        }
        match cur.step(the_move, strict) {
            StepResult::Stepped(st2) => {
                let ghost pre = moves@;
                moves.push(the_move);
                proof {
                    let r = applied(st2@, p@.skip(i + 1), strict);
                    assert(pre + (seq![the_move] + r.0) =~= moves@ + r.0);
                }
                cur = st2;
            },
            StepResult::Endgame(score) => {
                let ghost pre = moves@;
                moves.push(the_move);
                proof {
                    assert(pre + seq![the_move] =~= moves@);
                }
                return (moves, StepResult::Endgame(score));
            },
            StepResult::Oops => {
                proof {
                    assert(moves@ + Seq::<Move>::empty() =~= moves@);
                }
                return (moves, StepResult::Oops);
            },
        }
        i += 1;
    }
    proof {
        assert(p@.skip(i as int) =~= Seq::<Move>::empty());
        assert(moves@ + Seq::<Move>::empty() =~= moves@);
    }
    (moves, StepResult::Stepped(cur))
}

/// What the precise finder over `base` answers for path `p` from `s`: `p`
/// itself when it plays strictly; when a move would fail, the moves before
/// it followed by the answer for the first path `base` finds from where they
/// lead; nothing when the game ends, the first move fails, or the counters
/// have no room. (Each retry starts from a state with fewer points, so the
/// retries end.)
pub open spec fn precise_pick(base: BaseFind, s: StateView, p: Seq<Move>) -> Option<Seq<Move>>
    decreases s.score + 0x1_0000_0000_0000,
{
    if !room(s, p.len() as int) {
        None
    } else {
        let a = applied(s, p, true);
        match a.1 {
            StepView::Stepped(_) => Some(p),
            StepView::Endgame(_) => None,
            StepView::Oops => if a.0.len() == 0 {
                None
            } else {
                match spec_apply(s, a.0, true) {
                    StepView::Stepped(s2) => match first_walk(fresh_walks(base, s2)) {
                        Some(q) => if 0 <= s2.score + 0x1_0000_0000_0000 < s.score + 0x1_0000_0000_0000 {
                            match precise_pick(base, s2, q) {
                                Some(r) => Some(a.0 + r),
                                None => None,
                            }
                        } else {
                            None
                        },
                        None => None,
                    },
                    _ => None,
                }
            },
        }
    }
}

/// The paths the precise finder over `base` hands out from `s`, for the
/// paths `qs` its base generator still hands out: the answer for each in
/// turn, up to the first that answers nothing.
pub open spec fn precise_walks(base: BaseFind, s: StateView, qs: Seq<Seq<Move>>) -> Seq<Seq<Move>>
    decreases qs.len(),
{
    if qs.len() == 0 {
        Seq::empty()
    } else {
        match precise_pick(base, s, qs[0]) {
            Some(p) => seq![p] + precise_walks(base, s, qs.drop_first()),
            None => Seq::empty(),
        }
    }
}

/// Plays a path strictly from `s`: when it goes well, it is the answer;
/// when a move would fail, the moves before it are kept and followed by
/// what a fresh search from the state they reach answers. A path that ends
/// the game, fails at its first move, or has more moves than the counters
/// hold answers nothing.
pub fn handle_imp_path(s: &State, imp_path: Path, base: BaseFind) -> (res: Option<(State, Path)>)
    requires
        sound(s@),
        room(s@, 0),
        imp_path@.len() >= 1,
    ensures
        walked(s@, res),
        precise_pick(base, s@, imp_path@) == match res {
            Some((s2, p)) => Some(p@),
            None => None,
        },
    decreases s.score + 0x1_0000_0000_0000,
{
    if !s.has_room(imp_path.len()) {
        return None;
    }
    proof {
        law_apply_keeps_sound(s@, imp_path@, true);
        lemma_applied(s@, imp_path@, true);
    }
    let (applied_path, step_result) = path_apply(&imp_path, s, true);
    match step_result {
        StepResult::Stepped(s_) => {
            proof {
                lemma_strict_apply(s@, imp_path@);
            }
            Some((s_, imp_path))
        },
        StepResult::Endgame(_) => None,
        StepResult::Oops => {
            if applied_path.len() == 0 {
                return None;
            }
            proof {
                law_apply_keeps_sound(s@, applied_path@, true);
                lemma_apply_score(s@, applied_path@, true);
                lemma_strict_apply(s@, applied_path@);
            }
            match apply(&applied_path, s, true) {
                StepResult::Stepped(s_) => {
                    let mut g = base.get_paths(&s_);
                    match g.next() {
                        Some((_, q)) => match handle_imp_path(&s_, q, base) {
                            Some((s__, p__)) => {
                                let mut full = applied_path.clone();
                                let mut rest = p__.clone();
                                let ghost a = applied_path@;
                                let ghost b = p__@;
                                full.append(&mut rest);
                                proof {
                                    assert(full@ == a + b);
                                    lemma_apply_concat(s@, a, b, false);
                                }
                                Some((s__, full))
                            },
                            None => None,
                        },
                        None => None,
                    }
                },
                _ => None,
            }
        },
    }
}

/// The precise generator of paths from one state: the base finder's
/// generator, and the finder to start afresh with.
pub struct PreciseGen {
    pub s: State,
    pub base: BaseFind,
    pub inner: BaseGen,
}

/// The generator's state is sound, has room, and is that of its base
/// generator.
pub open spec fn precise_ok(p: &PreciseGen) -> bool {
    &&& sound(p.s@)
    &&& room(p.s@, 0)
    &&& p.inner.ok()
    &&& p.inner.start() == p.s@
}

/// The precise generator over `base` from `s`.
pub fn get_paths(base: BaseFind, s: &State) -> (g: PreciseGen)
    requires
        sound(s@),
        room(s@, 0),
    ensures
        precise_ok(&g),
        g.s@ == s@,
        g.base == base,
        base_walks(g.inner) == fresh_walks(base, s@),
{
    PreciseGen { s: s.copy(), base, inner: base.get_paths(s) }
}

impl PreciseGen {
    /// The base finder's next path, played precisely.
    pub fn next(&mut self) -> (res: Option<(State, Path)>)
        requires
            precise_ok(old(self)),
        ensures
            precise_ok(final(self)),
            final(self).s@ == old(self).s@,
            walked(old(self).s@, res),
            res is Some ==> final(self).inner.measure() < old(self).inner.measure(),
            final(self).base == old(self).base,
            precise_walks(old(self).base, old(self).s@, base_walks(old(self).inner)) == match res {
                Some((s2, p)) => seq![p@] + precise_walks(final(self).base, final(self).s@, base_walks(final(self).inner)),
                None => Seq::<Seq<Move>>::empty(),
            },
    {
        let ghost w0 = base_walks(self.inner);
        match self.inner.next() {
            Some((_, path)) => {
                proof {
                    assert(w0[0] == path@);
                    assert(w0.drop_first() =~= base_walks(self.inner));
                }
                handle_imp_path(&self.s, path, self.base)
            },
            None => None,
        }
    }
}

/// The precise path finder over `imprecise`.
pub fn mk(imprecise: BaseFind) -> (f: crate::path_find::PathFind)
    ensures
        f == crate::path_find::PathFind::Precise(imprecise),
{
    crate::path_find::PathFind::Precise(imprecise)
}

} // verus!
