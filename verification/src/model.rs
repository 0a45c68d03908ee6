//! The mathematical model of transition-based parsing.
//!
//! A sentence of `n` tokens is the index set `1..=n`. A configuration holds a
//! stack and a buffer of token indices and the arcs built so far. Each of the
//! five transition systems is a legality predicate and a step function over
//! configurations; everything executable in this crate is stated against them.

use vstd::prelude::*;

verus! {

/// A dependency relation label.
pub type Label = Seq<char>;

/// An arc as seen from its modifier: the head and the relation.
pub type Attachment = (nat, Label);

/// The transition systems.
#[derive(Clone, Copy, Debug, PartialEq, Eq, Structural, Hash)]
pub enum SystemKind {
    /// Arcs between the two topmost stack tokens.
    ArcStandard,
    /// Arcs between the stack top and the buffer front, with `Reduce`.
    ArcEager,
    /// Left arcs from the buffer front, right arcs from the second stack token.
    ArcHybrid,
    /// The rules of `ArcStandard`, for trees that were made projective beforehand.
    StackProjective,
    /// The rules of `ArcStandard` and `Swap`, which reorders tokens.
    StackSwap,
}

/// A transition, with labels as character sequences.
pub enum Move {
    Shift,
    LeftArc(Label),
    RightArc(Label),
    Reduce,
    Swap,
}

/// The state of one parse.
pub struct Configuration {
    /// The number of tokens of the sentence.
    pub tokens: nat,
    /// Partially processed tokens; the top is the last element.
    pub stack: Seq<nat>,
    /// Tokens that wait to be shifted; the front is the first element.
    pub buffer: Seq<nat>,
    /// For each attached modifier its head and label.
    pub arcs: Map<nat, Attachment>,
    /// How many swaps were applied.
    pub swaps: nat,
}

/// The most swaps that a parse of `n` tokens may apply: one for each pair of tokens.
pub open spec fn swap_limit(n: nat) -> nat {
    (n * (n - 1) / 2) as nat
}

impl SystemKind {
    /// Whether both arc transitions work on the two topmost stack tokens.
    pub open spec fn arcs_on_stack(self) -> bool {
        self == SystemKind::ArcStandard || self == SystemKind::StackProjective || self
            == SystemKind::StackSwap
    }
}

impl Configuration {
    /// The topmost stack token.
    pub open spec fn top(self) -> nat {
        self.stack[self.stack.len() - 1]
    }

    /// The stack token below the top.
    pub open spec fn second(self) -> nat {
        self.stack[self.stack.len() - 2]
    }

    /// The next token of the buffer.
    pub open spec fn front(self) -> nat {
        self.buffer[0]
    }

    /// Whether token `t` has a head.
    pub open spec fn attached(self, t: nat) -> bool {
        self.arcs.dom().contains(t)
    }

    /// The tokens that are still being processed: the stack followed by the buffer.
    pub open spec fn live(self) -> Seq<nat> {
        self.stack + self.buffer
    }

    /// Indices are tokens of the sentence and the counters are within their limits.
    pub open spec fn well_formed(self) -> bool {
        &&& forall|i: int| 0 <= i < self.stack.len() ==> 1 <= #[trigger] self.stack[i] <= self.tokens
        &&& forall|i: int|
            0 <= i < self.buffer.len() ==> 1 <= #[trigger] self.buffer[i] <= self.tokens
        &&& forall|m: nat| #[trigger]
            self.arcs.dom().contains(m) ==> 1 <= m <= self.tokens && 1 <= self.arcs[m].0
                <= self.tokens
        &&& self.swaps <= swap_limit(self.tokens)
    }

    /// Stack and buffer share no token, every token that is on neither has a
    /// head, and some token is left on them.
    pub open spec fn partitioned(self) -> bool {
        &&& self.live().no_duplicates()
        &&& forall|t: nat|
            1 <= t <= self.tokens && !(#[trigger] self.arcs.dom().contains(t))
                ==> self.live().contains(t)
        &&& self.tokens >= 1 ==> self.live().len() >= 1
    }

    /// Where attached tokens may still stand: never in the buffer and never at
    /// the bottom of the stack, and on the stack at all only under arc-eager,
    /// which attaches a token when it pushes it.
    pub open spec fn heads_settled(self, kind: SystemKind) -> bool {
        &&& forall|i: int|
            0 <= i < self.buffer.len() ==> !self.arcs.dom().contains(#[trigger] self.buffer[i])
        &&& self.stack.len() >= 1 ==> !self.arcs.dom().contains(self.stack[0])
        &&& kind != SystemKind::ArcEager ==> forall|i: int|
            0 <= i < self.stack.len() ==> !self.arcs.dom().contains(#[trigger] self.stack[i])
    }

    /// What holds of every configuration that a parse under `kind` reaches.
    pub open spec fn consistent(self, kind: SystemKind) -> bool {
        self.well_formed() && self.partitioned() && self.heads_settled(kind)
    }

    /// The number of transitions that a parse can still apply, at most.
    pub open spec fn potential(self) -> nat {
        (2 * self.buffer.len() + self.stack.len() + 2 * (swap_limit(self.tokens) - self.swaps)) as nat
    }

    /// The arcs of `self` are arcs of `other`, unchanged.
    pub open spec fn arcs_kept_by(self, other: Configuration) -> bool {
        forall|m: nat| #[trigger]
            self.arcs.dom().contains(m) ==> other.arcs.dom().contains(m) && other.arcs[m]
                == self.arcs[m]
    }
}

/// The configuration a parse of `n` tokens starts from: every token in the
/// buffer, in sentence order, and nothing else.
pub open spec fn initial(n: nat) -> Configuration {
    Configuration {
        tokens: n,
        stack: Seq::empty(),
        buffer: Seq::new(n, |i: int| (i + 1) as nat),
        arcs: Map::empty(),
        swaps: 0,
    }
}

/// Whether `m` may be applied to `c` under the rules of `kind`.
pub open spec fn legal(kind: SystemKind, c: Configuration, m: Move) -> bool {
    match m {
        Move::Shift => c.buffer.len() >= 1,
        Move::LeftArc(_) => if kind.arcs_on_stack() {
            c.stack.len() >= 2 && !c.attached(c.second())
        } else {
            c.stack.len() >= 1 && c.buffer.len() >= 1 && !c.attached(c.top())
        },
        Move::RightArc(_) => if kind == SystemKind::ArcEager {
            c.stack.len() >= 1 && c.buffer.len() >= 1 && !c.attached(c.front())
        } else {
            c.stack.len() >= 2 && !c.attached(c.top())
        },
        Move::Reduce => kind == SystemKind::ArcEager && c.stack.len() >= 1 && c.attached(c.top()),
        Move::Swap => kind == SystemKind::StackSwap && c.stack.len() >= 2 && c.second() < c.top()
            && c.swaps < swap_limit(c.tokens),
    }
}

/// The configuration that results from applying `m` to `c` under the rules of `kind`.
pub open spec fn step(kind: SystemKind, c: Configuration, m: Move) -> Configuration {
    match m {
        Move::Shift => Configuration {
            stack: c.stack.push(c.front()),
            buffer: c.buffer.drop_first(),
            ..c
        },
        Move::LeftArc(label) => if kind.arcs_on_stack() {
            Configuration {
                stack: c.stack.remove(c.stack.len() - 2),
                arcs: c.arcs.insert(c.second(), (c.top(), label)),
                ..c
            }
        } else {
            Configuration {
                stack: c.stack.drop_last(),
                arcs: c.arcs.insert(c.top(), (c.front(), label)),
                ..c
            }
        },
        Move::RightArc(label) => if kind == SystemKind::ArcEager {
            Configuration {
                stack: c.stack.push(c.front()),
                buffer: c.buffer.drop_first(),
                arcs: c.arcs.insert(c.front(), (c.top(), label)),
                ..c
            }
        } else {
            Configuration {
                stack: c.stack.drop_last(),
                arcs: c.arcs.insert(c.top(), (c.second(), label)),
                ..c
            }
        },
        Move::Reduce => Configuration { stack: c.stack.drop_last(), ..c },
        Move::Swap => Configuration {
            stack: c.stack.remove(c.stack.len() - 2),
            buffer: seq![c.second()] + c.buffer,
            swaps: c.swaps + 1,
            ..c
        },
    }
}

/// Whether a parse under `kind` ends at `c`: the buffer is empty and at most
/// one token, the root, is left on the stack. Arc-eager asks in addition that
/// every other token has a head.
pub open spec fn terminal(kind: SystemKind, c: Configuration) -> bool {
    &&& c.buffer.len() == 0
    &&& c.stack.len() <= 1
    &&& kind == SystemKind::ArcEager ==> forall|t: nat|
        1 <= t <= c.tokens && !c.stack.contains(t) ==> #[trigger] c.arcs.dom().contains(t)
}

/// The configuration reached from `c` by applying `moves` in order.
pub open spec fn run(kind: SystemKind, c: Configuration, moves: Seq<Move>) -> Configuration
    decreases moves.len(),
{
    if moves.len() == 0 {
        c
    } else {
        step(kind, run(kind, c, moves.drop_last()), moves.last())
    }
}

/// Whether each of `moves` is legal where `run` applies it.
pub open spec fn legal_run(kind: SystemKind, c: Configuration, moves: Seq<Move>) -> bool
    decreases moves.len(),
{
    moves.len() == 0 || (legal_run(kind, c, moves.drop_last()) && legal(
        kind,
        run(kind, c, moves.drop_last()),
        moves.last(),
    ))
}

/// Whether some sequence of legal transitions leads from `from` to `to`.
pub open spec fn reaches(kind: SystemKind, from: Configuration, to: Configuration) -> bool {
    exists|moves: Seq<Move>| legal_run(kind, from, moves) && run(kind, from, moves) == to
}

} // verus!
