//! Static oracles: for a state and a gold tree, the one transition that a
//! parser takes next if it is to build that tree.
//!
//! Every oracle attaches before it shifts. A token is attached when its gold
//! head stands where the system at hand can attach it and all of its own gold
//! dependents are attached: once a token has left the stack it can head no
//! further arc. Under arc-eager a token is attached to a head on its left as
//! soon as the two meet, and leaves the stack once its dependents are
//! attached. Under stack-swap two tokens are swapped, if no arc can be built,
//! when the projective order of the gold tree has them the other way round.

use vstd::prelude::*;
use crate::dependency::DependencySet;
use crate::error::Error;
use crate::gold::{is_child, rank, GoldTree};
use crate::model::{legal, Attachment, Configuration, Move, SystemKind};
use crate::state::ParserState;
use crate::table::TransitionSystem;
use crate::transition::Transition;

verus! {

/// Whether every gold dependent of `h` is attached in `c`.
pub open spec fn resolved(c: Configuration, gold: Map<nat, Attachment>, h: nat) -> bool {
    forall|m: nat| #[trigger] gold.dom().contains(m) && gold[m].0 == h ==> c.arcs.dom().contains(m)
}

/// Whether the gold arc from `h` to `m` is due: `m` has no head yet and all
/// of its own gold dependents are attached.
pub open spec fn due(c: Configuration, gold: Map<nat, Attachment>, m: nat, h: nat) -> bool {
    is_child(gold, m, h) && !c.attached(m) && resolved(c, gold, m)
}

/// The transition that the static oracle of `kind` takes in `c` towards the
/// tree `gold` over `n` tokens with projective order `order`, if there is one.
pub open spec fn oracle(
    kind: SystemKind,
    c: Configuration,
    gold: Map<nat, Attachment>,
    n: nat,
    order: Seq<nat>,
) -> Option<Move> {
    if n != c.tokens {
        None
    } else if kind.arcs_on_stack() {
        if c.stack.len() >= 2 && due(c, gold, c.second(), c.top()) {
            Some(Move::LeftArc(gold[c.second()].1))
        } else if c.stack.len() >= 2 && due(c, gold, c.top(), c.second()) {
            Some(Move::RightArc(gold[c.top()].1))
        } else if legal(kind, c, Move::Swap) && rank(order, c.top()) < rank(order, c.second()) {
            Some(Move::Swap)
        } else if c.buffer.len() >= 1 {
            Some(Move::Shift)
        } else {
            None
        }
    } else if kind == SystemKind::ArcHybrid {
        if c.stack.len() >= 1 && c.buffer.len() >= 1 && due(c, gold, c.top(), c.front()) {
            Some(Move::LeftArc(gold[c.top()].1))
        } else if c.stack.len() >= 2 && due(c, gold, c.top(), c.second()) {
            Some(Move::RightArc(gold[c.top()].1))
        } else if c.buffer.len() >= 1 {
            Some(Move::Shift)
        } else {
            None
        }
    } else {
        if c.stack.len() >= 1 && c.buffer.len() >= 1 && due(c, gold, c.top(), c.front()) {
            Some(Move::LeftArc(gold[c.top()].1))
        } else if c.stack.len() >= 1 && c.buffer.len() >= 1 && is_child(gold, c.front(), c.top())
            && !c.attached(c.front()) {
            Some(Move::RightArc(gold[c.front()].1))
        } else if c.stack.len() >= 1 && c.attached(c.top()) && resolved(c, gold, c.top()) {
            Some(Move::Reduce)
        } else if c.buffer.len() >= 1 {
            Some(Move::Shift)
        } else {
            None
        }
    }
}

/// What a static oracle chooses is legal.
pub proof fn lemma_oracle_legal(
    kind: SystemKind,
    c: Configuration,
    gold: Map<nat, Attachment>,
    n: nat,
    order: Seq<nat>,
)
    ensures
        oracle(kind, c, gold, n, order) matches Some(m) ==> legal(kind, c, m),
{
}

/// Whether every gold dependent of `h` is attached in `state`.
pub fn is_resolved(state: &ParserState, gold: &DependencySet, h: usize) -> (all: bool)
    requires
        state.wf(),
    ensures
        all == resolved(state@, gold@, h as nat),
{
    let n = gold.tokens();
    let mut m: usize = 0;
    proof {
        gold.lemma_domain();
    }
    while m < n
        invariant
            m <= n,
            n == gold.size(),
            state.wf(),
            forall|k: nat|
                1 <= k <= m && #[trigger] gold@.dom().contains(k) && gold@[k].0 == h
                    ==> state@.arcs.dom().contains(k),
        decreases n - m,
    {
        m += 1;
        let waits = match gold.get(m) {
            Some(d) => d.head == h && !state.is_attached(m),
            None => false,
        };
        if waits {
            assert(gold@.dom().contains(m as nat) && gold@[m as nat].0 == h as nat);
            assert(!state@.arcs.dom().contains(m as nat));
            return false;
        }
    }
    proof {
        gold.lemma_domain();
    }
    true
}

/// The label of the gold arc from `h` to `m`, if that arc is due in `state`.
fn due_label(state: &ParserState, gold: &DependencySet, m: usize, h: usize) -> (label: Option<
    String,
>)
    requires
        state.wf(),
    ensures
        label is Some <==> due(state@, gold@, m as nat, h as nat),
        label matches Some(l) ==> l@ == gold@[m as nat].1,
{
    match gold.get(m) {
        Some(d) => {
            if d.head == h && !state.is_attached(m) && is_resolved(state, gold, m) {
                Some(d.relation.clone())
            } else {
                None
            }
        },
        None => None,
    }
}

impl SystemKind {
    /// The transition that a parser in `state` takes next to build `gold`.
    /// There is none if the state is not one from which this system can
    /// still build the tree.
    pub fn static_oracle(self, state: &ParserState, gold: &GoldTree) -> (next: Result<
        Transition,
        Error,
    >)
        requires
            state.wf(),
            gold.wf(),
        ensures
            match oracle(self, state@, gold@, gold.size(), gold.order()) {
                Some(m) => next matches Ok(t) && t@ == m,
                None => next == Err::<Transition, Error>(Error::NonOracleTree),
            },
    {
        if gold.tokens() != state.len() {
            return Err(Error::NonOracleTree);
        }
        let arcs = gold.arcs();
        let top = state.peek_stack(0);
        let second = state.peek_stack(1);
        let front = state.peek_buffer_front();
        if self.has_arcs_on_stack() {
            match (second, top) {
                (Some(s), Some(t)) => {
                    match due_label(state, arcs, s, t) {
                        Some(label) => {
                            return Ok(Transition::LeftArc(label));
                        },
                        None => {},
                    }
                    match due_label(state, arcs, t, s) {
                        Some(label) => {
                            return Ok(Transition::RightArc(label));
                        },
                        None => {},
                    }
                    if self.is_legal(&Transition::Swap, state) {
                        if gold.place(t) < gold.place(s) {
                            return Ok(Transition::Swap);
                        }
                    }
                },
                _ => {},
            }
        } else if self.is_eager() {
            match (top, front) {
                (Some(t), Some(f)) => {
                    match due_label(state, arcs, t, f) {
                        Some(label) => {
                            return Ok(Transition::LeftArc(label));
                        },
                        None => {},
                    }
                    let attach = match arcs.get(f) {
                        Some(d) => if d.head == t && !state.is_attached(f) {
                            Some(d.relation.clone())
                        } else {
                            None
                        },
                        None => None,
                    };
                    match attach {
                        Some(label) => {
                            return Ok(Transition::RightArc(label));
                        },
                        None => {},
                    }
                },
                _ => {},
            }
            match top {
                Some(t) => {
                    if state.is_attached(t) && is_resolved(state, arcs, t) {
                        return Ok(Transition::Reduce);
                    }
                },
                None => {},
            }
        } else {
            match (top, front) {
                (Some(t), Some(f)) => {
                    match due_label(state, arcs, t, f) {
                        Some(label) => {
                            return Ok(Transition::LeftArc(label));
                        },
                        None => {},
                    }
                },
                _ => {},
            }
            match (second, top) {
                (Some(s), Some(t)) => {
                    match due_label(state, arcs, t, s) {
                        Some(label) => {
                            return Ok(Transition::RightArc(label));
                        },
                        None => {},
                    }
                },
                _ => {},
            }
        }
        if front.is_some() {
            Ok(Transition::Shift)
        } else {
            Err(Error::NonOracleTree)
        }
    }
}

impl TransitionSystem {
    /// The transition that a parser in `state` takes next to build `gold`;
    /// see `SystemKind::static_oracle`.
    pub fn static_oracle(&self, state: &ParserState, gold: &GoldTree) -> (next: Result<
        Transition,
        Error,
    >)
        requires
            state.wf(),
            gold.wf(),
        ensures
            match oracle(self.spec_kind(), state@, gold@, gold.size(), gold.order()) {
                Some(m) => next matches Ok(t) && t@ == m,
                None => next == Err::<Transition, Error>(Error::NonOracleTree),
            },
    {
        self.kind().static_oracle(state, gold)
    }
}

} // verus!
