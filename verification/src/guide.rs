//! What a parser asks of the component that scores transitions.

use vstd::prelude::*;
use crate::state::ParserState;
use crate::transition::Transition;

verus! {

/// Chooses the next transition of one parse.
///
/// A guide is expected to return a transition that is legal in `state`; the
/// parser checks the answer and ends the parse if it is not. The states that
/// a guide is shown are states of a parse: no token is in two places.
pub trait Guide {
    fn best_transition(&mut self, state: &ParserState) -> (transition: Transition)
        requires
            state.wf(),
            state@.partitioned(),
    ;
}

/// Chooses the next transitions of several parses in one call.
///
/// A batch guide is expected to return one transition for each state, in the
/// order of the states; the parser checks the answer.
pub trait BatchGuide {
    fn best_transitions(&mut self, states: &[&ParserState]) -> (transitions: Vec<Transition>)
        requires
            forall|i: int|
                0 <= i < states@.len() ==> (#[trigger] states@[i]).wf() && states@[i]@.partitioned(),
    ;
}

} // verus!
