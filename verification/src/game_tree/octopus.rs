//! The choice among engines run side by side: each plan is scored by
//! playing it, and the best plan wins.

use vstd::prelude::*;
use crate::path::{Path, apply, law_apply_keeps_sound, spec_apply};
use crate::state::{State, StateView, StepResult, StepView, room, sound};

verus! {

/// The score of a plan played (not strictly) from `s`: the points when the
/// game ends, the score of the state it leads to when it goes on, and the
/// lowest score when the robot dies or the counters have no room for it.
pub open spec fn plan_score(s: StateView, p: Seq<crate::state::Move>) -> i64 {
    if !room(s, p.len() as int) {
        i64::MIN
    } else {
        match spec_apply(s, p, false) {
            StepView::Endgame(score) => score as i64,
            StepView::Stepped(s2) => s2.score as i64,
            StepView::Oops => i64::MIN,
        }
    }
}

/// The score of plan `p` played from `s`.
pub fn path_score(s: &State, p: &Path) -> (score: i64)
    requires
        sound(s@),
    ensures
        score == plan_score(s@, p@),
{
    if !s.has_room(p.len()) {
        return i64::MIN;
    }
    proof {
        law_apply_keeps_sound(s@, p@, false);
    }
    match apply(p, s, false) {
        StepResult::Endgame(score) => score,
        StepResult::Stepped(s2) => s2.score,
        StepResult::Oops => i64::MIN,
    }
}

/// The index of the first of the highest scores above the lowest score, if
/// any.
pub open spec fn best_index(scores: Seq<i64>) -> Option<int>
    decreases scores.len(),
{
    if scores.len() == 0 {
        None
    } else {
        let rest = best_index(scores.drop_last());
        let last = scores.last();
        match rest {
            None => if last > i64::MIN {
                Some(scores.len() - 1)
            } else {
                None
            },
            Some(i) => if last > scores[i] {
                Some(scores.len() - 1)
            } else {
                Some(i)
            },
        }
    }
}

/// What `best_index` picks is the first of the highest scores, and scored
/// above the lowest score; it picks nothing only when every score is the
/// lowest.
pub proof fn law_best_index(scores: Seq<i64>)
    ensures
        best_index(scores) matches Some(i) ==> {
            &&& 0 <= i < scores.len()
            &&& scores[i] > i64::MIN
            &&& forall|j: int| 0 <= j < scores.len() ==> scores[j] <= scores[i]
            &&& forall|j: int| 0 <= j < i ==> scores[j] < scores[i]
        },
        best_index(scores) is None ==> forall|j: int| 0 <= j < scores.len() ==> scores[j] == i64::MIN,
    decreases scores.len(),
{
    if scores.len() > 0 {
        let init = scores.drop_last();
        law_best_index(init);
        assert forall|j: int| 0 <= j < init.len() implies init[j] == scores[j] by {}
    }
}

/// The plan with the highest score (the first of them, and only one scored
/// above the lowest score); no moves when there is none.
pub fn pick_best(results: Vec<(i64, Path)>) -> (path: Path)
    ensures
        best_index(results@.map_values(|r: (i64, Path)| r.0)) matches Some(i) ==> path@ == results@[i].1@,
        best_index(results@.map_values(|r: (i64, Path)| r.0)) is None ==> path@.len() == 0,
        (exists|i: int|
            #![trigger results@[i]]
            0 <= i < results@.len() && path@ == results@[i].1@ && results@[i].0 > i64::MIN && (forall|j: int|
                0 <= j < results@.len() ==> results@[j].0 <= results@[i].0) && (forall|j: int|
                0 <= j < i ==> results@[j].0 < results@[i].0)) || (path@.len() == 0 && forall|j: int|
            0 <= j < results@.len() ==> results@[j].0 == i64::MIN),
{
    let ghost scores = results@.map_values(|r: (i64, Path)| r.0);
    let mut best: i64 = i64::MIN;
    let mut path: Path = Vec::new();
    let ghost mut bi: Option<int> = None;
    let mut i: usize = 0;
    while i < results.len()
        invariant
            i <= results@.len(),
            scores == results@.map_values(|r: (i64, Path)| r.0),
            bi == best_index(scores.take(i as int)),
            bi matches Some(k) ==> 0 <= k < i && best == scores[k] && path@ == results@[k].1@,
            bi is None ==> best == i64::MIN && path@.len() == 0,
        decreases results@.len() - i,
    {
        proof {
            assert(scores.take(i + 1).drop_last() =~= scores.take(i as int));
            assert(scores.take(i + 1).last() == scores[i as int]);
        }
        let score = results[i].0;
        if score > best {
            best = score;
            path = results[i].1.clone();
            proof {
                bi = Some(i as int);
            }
        }
        i += 1;
    }
    proof {
        assert(scores.take(i as int) =~= scores);
        law_best_index(scores);
        if let Some(k) = bi {
            assert(scores[k] == results@[k].0);
            assert(forall|j: int| 0 <= j < results@.len() ==> results@[j].0 == #[trigger] scores[j]);
            assert forall|j: int| 0 <= j < results@.len() implies results@[j].0 <= results@[k].0 by {
                assert(scores[j] <= scores[k]);
            }
            assert forall|j: int| 0 <= j < k implies results@[j].0 < results@[k].0 by {
                assert(scores[j] < scores[k]);
            }
            assert(0 <= k < results@.len() && path@ == results@[k].1@ && results@[k].0 > i64::MIN && (forall|j: int|
                0 <= j < results@.len() ==> results@[j].0 <= results@[k].0) && (forall|j: int|
                0 <= j < k ==> results@[j].0 < results@[k].0));
        } else {
            assert forall|j: int| 0 <= j < results@.len() implies results@[j].0 == i64::MIN by {
                assert(scores[j] == i64::MIN);
            }
        }
    }
    path
}

} // verus!
