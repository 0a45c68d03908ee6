//! The rules of the five transition systems, run on parser states.

use vstd::prelude::*;
use crate::error::Error;
use crate::laws::{lemma_step_consistent, lemma_step_regular};
use crate::model::{initial, legal, step, terminal, SystemKind};
use crate::state::{ParserState, Token};
use crate::table::TransitionSystem;
use crate::transition::Transition;

verus! {

impl SystemKind {
    /// Whether both arc transitions work on the two topmost stack tokens.
    pub fn has_arcs_on_stack(self) -> (on_stack: bool)
        ensures
            on_stack == self.arcs_on_stack(),
    {
        match self {
            SystemKind::ArcStandard => true,
            SystemKind::StackProjective => true,
            SystemKind::StackSwap => true,
            SystemKind::ArcEager => false,
            SystemKind::ArcHybrid => false,
        }
    }

    /// Whether this is the arc-eager system.
    pub fn is_eager(self) -> (eager: bool)
        ensures
            eager == (self == SystemKind::ArcEager),
    {
        match self {
            SystemKind::ArcEager => true,
            _ => false,
        }
    }

    /// Whether this is the stack-swap system.
    pub fn is_swapping(self) -> (swapping: bool)
        ensures
            swapping == (self == SystemKind::StackSwap),
    {
        match self {
            SystemKind::StackSwap => true,
            _ => false,
        }
    }

    /// The state from which the parse of `sentence` starts.
    pub fn initial_state(self, sentence: &[Token]) -> (state: ParserState)
        ensures
            state.wf(),
            state@ == initial(sentence@.len()),
            state@.consistent(self),
            state.sentence() == sentence@,
    {
        ParserState::new(sentence)
    }

    /// Whether `transition` may be applied to `state`.
    pub fn is_legal(self, transition: &Transition, state: &ParserState) -> (allowed: bool)
        requires
            state.wf(),
        ensures
            allowed == legal(self, state@, transition@),
    {
        let on_stack = state.stack_len();
        let waiting = state.buffer_len();
        match transition {
            Transition::Shift => waiting >= 1,
            Transition::LeftArc(_) => {
                if self.has_arcs_on_stack() {
                    match state.peek_stack(1) {
                        Some(second) => !state.is_attached(second),
                        None => false,
                    }
                } else {
                    match state.peek_stack(0) {
                        Some(top) => waiting >= 1 && !state.is_attached(top),
                        None => false,
                    }
                }
            },
            Transition::RightArc(_) => {
                if self.is_eager() {
                    match state.peek_buffer_front() {
                        Some(front) => on_stack >= 1 && !state.is_attached(front),
                        None => false,
                    }
                } else {
                    match state.peek_stack(0) {
                        Some(top) => on_stack >= 2 && !state.is_attached(top),
                        None => false,
                    }
                }
            },
            Transition::Reduce => {
                match state.peek_stack(0) {
                    Some(top) => self.is_eager() && state.is_attached(top),
                    None => false,
                }
            },
            Transition::Swap => {
                match (state.peek_stack(1), state.peek_stack(0)) {
                    (Some(second), Some(top)) => self.is_swapping() && second < top
                        && state.may_swap(),
                    _ => false,
                }
            },
        }
    }

    /// Applies `transition` to `state` if it is legal there, and leaves the
    /// state as it is if not.
    pub fn apply(self, transition: &Transition, state: &mut ParserState) -> (done: Result<
        (),
        Error,
    >)
        requires
            old(state).wf(),
        ensures
            final(state).wf(),
            final(state).sentence() == old(state).sentence(),
            done == if legal(self, old(state)@, transition@) {
                Ok::<(), Error>(())
            } else {
                Err(Error::IllegalTransition)
            },
            final(state)@ == if done is Ok {
                step(self, old(state)@, transition@)
            } else {
                old(state)@
            },
            old(state)@.consistent(self) ==> final(state)@.consistent(self),
            old(state)@.arcs_kept_by(final(state)@),
            done is Ok ==> final(state)@.potential() + 1 == old(state)@.potential(),
    {
        if !self.is_legal(transition, state) {
            return Err(Error::IllegalTransition);
        }
        let ghost before = state@;
        proof {
            lemma_step_regular(self, before, transition@);
            if before.consistent(self) {
                lemma_step_consistent(self, before, transition@);
            }
        }
        match transition {
            Transition::Shift => {
                let front = state.pop_buffer_front().unwrap();
                let pushed = state.push_stack(front);
                assert(pushed is Ok);
            },
            Transition::LeftArc(label) => {
                if self.has_arcs_on_stack() {
                    let top = state.pop_stack().unwrap();
                    let second = state.pop_stack().unwrap();
                    let pushed = state.push_stack(top);
                    let added = state.add_arc(second, top, label.clone());
                    assert(pushed is Ok && added is Ok);
                    assert(state@.stack =~= before.stack.remove(before.stack.len() - 2));
                } else {
                    let front = state.peek_buffer_front().unwrap();
                    let top = state.pop_stack().unwrap();
                    let added = state.add_arc(top, front, label.clone());
                    assert(added is Ok);
                }
            },
            Transition::RightArc(label) => {
                if self.is_eager() {
                    let top = state.peek_stack(0).unwrap();
                    let front = state.pop_buffer_front().unwrap();
                    let pushed = state.push_stack(front);
                    let added = state.add_arc(front, top, label.clone());
                    assert(pushed is Ok && added is Ok);
                } else {
                    let top = state.pop_stack().unwrap();
                    let second = state.peek_stack(0).unwrap();
                    let added = state.add_arc(top, second, label.clone());
                    assert(added is Ok);
                }
            },
            Transition::Reduce => {
                let top = state.pop_stack();
                assert(top is Some);
            },
            Transition::Swap => {
                let top = state.pop_stack().unwrap();
                let second = state.pop_stack().unwrap();
                let pushed = state.push_stack(top);
                let moved = state.push_buffer_front(second);
                assert(pushed is Ok && moved is Ok);
                assert(state@.stack =~= before.stack.remove(before.stack.len() - 2));
            },
        }
        assert(state@ == step(self, before, transition@));
        Ok(())
    }

    /// Whether the parse of `state` has ended: the buffer is empty and at
    /// most one token is left on the stack; under arc-eager every other token
    /// has a head as well.
    pub fn is_terminal(self, state: &ParserState) -> (ended: bool)
        requires
            state.wf(),
        ensures
            ended == terminal(self, state@),
    {
        if state.buffer_len() != 0 || state.stack_len() > 1 {
            return false;
        }
        if !self.is_eager() {
            return true;
        }
        let root = state.peek_stack(0);
        let n = state.len();
        let mut t: usize = 0;
        while t < n
            invariant
                t <= n,
                n == state@.tokens,
                self == SystemKind::ArcEager,
                state@.buffer.len() == 0,
                state.wf(),
                state@.stack.len() <= 1,
                root == if state@.stack.len() == 1 {
                    Some(state@.stack[0] as usize)
                } else {
                    None
                },
                root matches Some(r) ==> r == state@.stack[0],
                forall|u: nat|
                    1 <= u <= t && !state@.stack.contains(u) ==> #[trigger] state@.arcs.dom().contains(
                        u,
                    ),
            decreases n - t,
        {
            t += 1;
            if root != Some(t) && !state.is_attached(t) {
                assert(!state@.stack.contains(t as nat)) by {
                    if state@.stack.len() == 1 {
                        assert(state@.stack[0] != t);
                    }
                }
                assert(!state@.arcs.dom().contains(t as nat));
                return false;
            }
            if root == Some(t) {
                assert(state@.stack[0] == t as nat);
                assert(state@.stack.contains(t as nat));
            }
        }
        true
    }
}

impl TransitionSystem {
    /// The state from which the parse of `sentence` starts.
    pub fn initial_state(&self, sentence: &[Token]) -> (state: ParserState)
        ensures
            state.wf(),
            state@ == initial(sentence@.len()),
            state@.consistent(self.spec_kind()),
            state.sentence() == sentence@,
    {
        self.kind().initial_state(sentence)
    }

    /// Whether `transition` may be applied to `state`.
    pub fn is_legal(&self, transition: &Transition, state: &ParserState) -> (allowed: bool)
        requires
            state.wf(),
        ensures
            allowed == legal(self.spec_kind(), state@, transition@),
    {
        self.kind().is_legal(transition, state)
    }

    /// Applies `transition` to `state` if it is legal there, and leaves the
    /// state as it is if not.
    pub fn apply(&self, transition: &Transition, state: &mut ParserState) -> (done: Result<
        (),
        Error,
    >)
        requires
            old(state).wf(),
        ensures
            final(state).wf(),
            final(state).sentence() == old(state).sentence(),
            done == if legal(self.spec_kind(), old(state)@, transition@) {
                Ok::<(), Error>(())
            } else {
                Err(Error::IllegalTransition)
            },
            final(state)@ == if done is Ok {
                step(self.spec_kind(), old(state)@, transition@)
            } else {
                old(state)@
            },
            old(state)@.consistent(self.spec_kind()) ==> final(state)@.consistent(
                self.spec_kind(),
            ),
            old(state)@.arcs_kept_by(final(state)@),
    {
        self.kind().apply(transition, state)
    }

    /// Whether the parse of `state` has ended.
    pub fn is_terminal(&self, state: &ParserState) -> (ended: bool)
        requires
            state.wf(),
        ensures
            ended == terminal(self.spec_kind(), state@),
    {
        self.kind().is_terminal(state)
    }
}

impl ParserState {
    /// Whether the parse has ended by the rules of `system`.
    pub fn is_terminal(&self, system: SystemKind) -> (ended: bool)
        requires
            self.wf(),
        ensures
            ended == terminal(system, self@),
    {
        system.is_terminal(self)
    }
}

} // verus!
