//! The choice of a transition from the scores that a model gives to the
//! numbers of the transition table.

use vstd::prelude::*;
use crate::error::Error;
use crate::model::{legal, Configuration, Move, SystemKind};
use crate::state::ParserState;
use crate::table::TransitionSystem;
use crate::transition::Transition;

verus! {

/// The score that is never chosen.
pub const NO_SCORE: i64 = i64::MIN;

/// Whether the transition with the number `id` can be chosen: the table has
/// it, it has a score to be chosen by, and it is legal in `c`.
pub open spec fn candidate(
    kind: SystemKind,
    c: Configuration,
    table: Seq<Move>,
    scores: Seq<i64>,
    id: int,
) -> bool {
    &&& 1 <= id < scores.len()
    &&& id <= table.len()
    &&& scores[id] > NO_SCORE
    &&& legal(kind, c, table[id - 1])
}

/// The number to choose among those below `limit`: that of the candidate
/// with the highest score, and the lowest such number.
pub open spec fn best_below(
    kind: SystemKind,
    c: Configuration,
    table: Seq<Move>,
    scores: Seq<i64>,
    limit: nat,
) -> Option<int>
    decreases limit,
{
    if limit <= 1 {
        None
    } else {
        let before = best_below(kind, c, table, scores, (limit - 1) as nat);
        let id = limit - 1;
        if candidate(kind, c, table, scores, id) && (before matches Some(b) ==> scores[id]
            > scores[b]) {
            Some(id)
        } else {
            before
        }
    }
}

/// The number that is chosen is a candidate, no candidate has a higher
/// score, and none with the same score has a lower number; none is chosen
/// exactly if there is no candidate.
pub proof fn lemma_best_below(
    kind: SystemKind,
    c: Configuration,
    table: Seq<Move>,
    scores: Seq<i64>,
    limit: nat,
)
    ensures
        match best_below(kind, c, table, scores, limit) {
            Some(best) => {
                &&& 1 <= best < limit
                &&& candidate(kind, c, table, scores, best)
                &&& forall|id: int|
                    1 <= id < limit && #[trigger] candidate(kind, c, table, scores, id)
                        ==> scores[id] < scores[best] || (scores[id] == scores[best] && best <= id)
            },
            None => forall|id: int|
                1 <= id < limit ==> !#[trigger] candidate(kind, c, table, scores, id),
        },
    decreases limit,
{
    if limit > 1 {
        lemma_best_below(kind, c, table, scores, (limit - 1) as nat);
    }
}

impl TransitionSystem {
    /// The transition with the number `id`.
    pub fn transition(&self, id: usize) -> (found: Result<Transition, Error>)
        ensures
            match found {
                Ok(t) => 1 <= id <= self.table()@.len() && t@ == self.table()@[id - 1],
                Err(e) => e == Error::UnknownLabel && !(1 <= id <= self.table()@.len()),
            },
    {
        match self.transitions().value(id) {
            Some(t) => Ok(t.clone()),
            None => Err(Error::UnknownLabel),
        }
    }

    /// The number of the transition to take in `state`, where `scores[id]`
    /// is the score of the transition with the number `id`: that of the
    /// legal transition with the highest score, and the lowest such number.
    /// A number that the table does not have is passed over, and so is the
    /// score `NO_SCORE`. The score of the number 0 is not looked at.
    pub fn best_number(&self, state: &ParserState, scores: &[i64]) -> (chosen: Option<usize>)
        requires
            state.wf(),
        ensures
            match chosen {
                Some(id) => best_below(
                    self.spec_kind(),
                    state@,
                    self.table()@,
                    scores@,
                    scores@.len(),
                ) == Some(id as int),
                None => best_below(self.spec_kind(), state@, self.table()@, scores@, scores@.len())
                    is None,
            },
    {
        let kind = self.kind();
        let table = self.transitions();
        let mut best: Option<usize> = None;
        let mut best_score: i64 = NO_SCORE;
        let mut id: usize = 1;
        if scores.len() <= 1 {
            return None;
        }
        while id < scores.len()
            invariant
                1 <= id <= scores@.len(),
                state.wf(),
                kind == self.spec_kind(),
                *table == self.table(),
                match best {
                    Some(b) => best_below(kind, state@, table@, scores@, id as nat) == Some(
                        b as int,
                    ) && 1 <= b < id && best_score == scores@[b as int],
                    None => best_below(kind, state@, table@, scores@, id as nat) is None,
                },
            decreases scores@.len() - id,
        {
            let score = scores[id];
            let allowed = match table.value(id) {
                Some(t) => score > NO_SCORE && kind.is_legal(t, state),
                None => false,
            };
            if allowed && (best.is_none() || score > best_score) {
                best = Some(id);
                best_score = score;
            }
            id += 1;
        }
        best
    }

    /// The transition to take in `state` by the scores `scores`; see
    /// `best_number`. There is none if no transition that has a score is
    /// legal.
    pub fn logits_best_transition(&self, state: &ParserState, scores: &[i64]) -> (chosen: Result<
        Transition,
        Error,
    >)
        requires
            state.wf(),
        ensures
            match best_below(self.spec_kind(), state@, self.table()@, scores@, scores@.len()) {
                Some(id) => chosen matches Ok(t) && t@ == self.table()@[id - 1] && legal(
                    self.spec_kind(),
                    state@,
                    t@,
                ),
                None => chosen == Err::<Transition, Error>(Error::IllegalTransition),
            },
    {
        proof {
            lemma_best_below(self.spec_kind(), state@, self.table()@, scores@, scores@.len());
        }
        match self.best_number(state, scores) {
            Some(id) => self.transition(id),
            None => Err(Error::IllegalTransition),
        }
    }
}

} // verus!
