//! The arcs of a parse never close a cycle: a token leaves the stack and
//! the buffer before its head does, so the arcs lead from tokens that left
//! early to tokens that left late or not at all.

use vstd::prelude::*;
use crate::laws::{
    lemma_initial_consistent, lemma_run_consistent, lemma_step_consistent,
    lemma_terminal_has_one_root,
};
use crate::model::{
    initial, legal, legal_run, reaches, run, step, terminal, Attachment, Configuration, Move,
    SystemKind,
};
use crate::parser::parse_of;

verus! {

/// Whether `height` grows along every arc, from the modifier to the head.
pub open spec fn ranked(arcs: Map<nat, Attachment>, height: spec_fn(nat) -> nat) -> bool {
    forall|m: nat| #[trigger] arcs.dom().contains(m) ==> height(m) < height(arcs[m].0)
}

/// Whether no token is reached from itself by following heads: some height
/// grows along every arc.
pub open spec fn acyclic(arcs: Map<nat, Attachment>) -> bool {
    exists|height: spec_fn(nat) -> nat| #[trigger] ranked(arcs, height)
}

/// Whether `x` is a token that is neither on the stack nor in the buffer.
pub open spec fn retired(c: Configuration, x: nat) -> bool {
    1 <= x <= c.tokens && !c.stack.contains(x) && !c.buffer.contains(x)
}

/// The place of `x` on the stack, counted from the bottom; the length of
/// the stack if it is not there.
pub open spec fn place(stack: Seq<nat>, x: nat) -> nat
    decreases stack.len(),
{
    if stack.len() == 0 {
        0
    } else if stack.last() == x {
        (stack.len() - 1) as nat
    } else if place(stack.drop_last(), x) < stack.len() - 1 {
        place(stack.drop_last(), x)
    } else {
        stack.len()
    }
}

/// The height of `x` in `c`: the time at which it retired, or, while it
/// has not, a number beyond all times, which is the larger the longer the
/// token stays.
pub open spec fn height(c: Configuration, left_at: spec_fn(nat) -> nat, beyond: nat, x: nat) -> nat {
    if c.stack.contains(x) {
        (beyond - place(c.stack, x)) as nat
    } else if c.buffer.contains(x) {
        beyond + 1
    } else {
        left_at(x)
    }
}

/// Under arc-eager, an attached token on the stack has its head right below it.
pub open spec fn chained(c: Configuration) -> bool {
    forall|i: int|
        0 <= i < c.stack.len() && c.arcs.dom().contains(#[trigger] c.stack[i]) ==> i >= 1
            && c.arcs[c.stack[i]].0 == c.stack[i - 1]
}

/// What holds of a configuration that was reached from one with the
/// potential `start`: the tokens that retired did so at times that have
/// passed, and heights grow along the arcs.
pub open spec fn timed(
    kind: SystemKind,
    c: Configuration,
    left_at: spec_fn(nat) -> nat,
    start: nat,
) -> bool {
    &&& c.consistent(kind)
    &&& c.potential() <= start
    &&& forall|x: nat| #[trigger] retired(c, x) ==> left_at(x) + c.potential() < start
    &&& forall|m: nat| #[trigger]
        c.arcs.dom().contains(m) ==> height(c, left_at, start + c.tokens + 2, m) < height(
            c,
            left_at,
            start + c.tokens + 2,
            c.arcs[m].0,
        )
    &&& kind == SystemKind::ArcEager ==> chained(c)
}

/// In a stack without repetitions a token has the place at which it stands.
proof fn lemma_place(stack: Seq<nat>, i: int)
    requires
        stack.no_duplicates(),
        0 <= i < stack.len(),
    ensures
        place(stack, stack[i]) == i,
    decreases stack.len(),
{
    let rest = stack.drop_last();
    if i < stack.len() - 1 {
        assert(rest[i] == stack[i]);
        lemma_place(rest, i);
    }
}

/// The stack of a consistent configuration has no repetitions, shares no
/// token with the buffer, and holds tokens of the sentence.
pub(crate) proof fn lemma_stack_facts(kind: SystemKind, c: Configuration)
    requires
        c.consistent(kind),
    ensures
        c.stack.no_duplicates(),
        c.buffer.no_duplicates(),
        forall|x: nat| !(c.stack.contains(x) && c.buffer.contains(x)),
        forall|x: nat| c.stack.contains(x) || c.buffer.contains(x) ==> 1 <= x <= c.tokens,
        c.stack.len() <= c.tokens,
{
    let live = c.live();
    let k = c.stack.len() as int;
    assert forall|i: int, j: int| 0 <= i < c.stack.len() && 0 <= j < c.stack.len() && i
        != j implies c.stack[i] != c.stack[j] by {
        assert(live[i] == c.stack[i] && live[j] == c.stack[j]);
    }
    assert forall|i: int, j: int| 0 <= i < c.buffer.len() && 0 <= j < c.buffer.len() && i
        != j implies c.buffer[i] != c.buffer[j] by {
        assert(live[k + i] == c.buffer[i] && live[k + j] == c.buffer[j]);
    }
    assert forall|x: nat| !(c.stack.contains(x) && c.buffer.contains(x)) by {
        if c.stack.contains(x) && c.buffer.contains(x) {
            let i = choose|i: int| 0 <= i < c.stack.len() && c.stack[i] == x;
            let j = choose|j: int| 0 <= j < c.buffer.len() && c.buffer[j] == x;
            assert(live[i] == x && live[k + j] == x);
        }
    }
    assert forall|x: nat| c.stack.contains(x) || c.buffer.contains(x) implies 1 <= x
        <= c.tokens by {
        if c.stack.contains(x) {
            let i = choose|i: int| 0 <= i < c.stack.len() && c.stack[i] == x;
        } else {
            let j = choose|j: int| 0 <= j < c.buffer.len() && c.buffer[j] == x;
        }
    }
    lemma_short(c.stack, c.tokens);
}

/// A sequence of different numbers from `1..=n` has `n` numbers at most.
proof fn lemma_short(s: Seq<nat>, n: nat)
    requires
        s.no_duplicates(),
        forall|i: int| 0 <= i < s.len() ==> 1 <= #[trigger] s[i] <= n,
    ensures
        s.len() <= n,
    decreases n,
{
    if s.len() > 0 {
        if n == 0 {
            assert(1 <= s[0] <= n);
        } else if s.contains(n) {
            let at = choose|i: int| 0 <= i < s.len() && s[i] == n;
            let rest = s.remove(at);
            assert forall|i: int| 0 <= i < rest.len() implies 1 <= #[trigger] rest[i] <= n - 1 by {
                let j = if i < at { i } else { i + 1 };
                assert(rest[i] == s[j]);
                assert(s[j] != s[at]);
            }
            assert forall|i: int, j: int| 0 <= i < rest.len() && 0 <= j < rest.len() && i
                != j implies rest[i] != rest[j] by {
                let i0 = if i < at { i } else { i + 1 };
                let j0 = if j < at { j } else { j + 1 };
                assert(rest[i] == s[i0] && rest[j] == s[j0]);
            }
            lemma_short(rest, (n - 1) as nat);
        } else {
            assert forall|i: int| 0 <= i < s.len() implies 1 <= #[trigger] s[i] <= n - 1 by {
                assert(s.contains(s[i]));
            }
            lemma_short(s, (n - 1) as nat);
        }
    }
}

/// What a legal transition does to the tokens in work: none comes back,
/// the head of a token that leaves stays, and the chain of arc-eager holds.
pub(crate) proof fn lemma_step_keeps_order(kind: SystemKind, c: Configuration, m: Move)
    requires
        c.consistent(kind),
        kind == SystemKind::ArcEager ==> chained(c),
        legal(kind, c, m),
    ensures
        forall|x: nat| #[trigger] retired(c, x) ==> retired(step(kind, c, m), x),
        forall|x: nat|
            #[trigger] retired(step(kind, c, m), x) && !retired(c, x) && step(
                kind,
                c,
                m,
            ).arcs.dom().contains(x) ==> !retired(step(kind, c, m), step(kind, c, m).arcs[x].0),
        kind == SystemKind::ArcEager ==> chained(step(kind, c, m)),
{
    let d = step(kind, c, m);
    let k = c.stack.len() as int;
    lemma_stack_facts(kind, c);
    lemma_step_consistent(kind, c, m);
    lemma_stack_facts(kind, d);
    let live = c.live();
    assert(forall|i: int| 0 <= i < k ==> live[i] == c.stack[i]);
    assert(forall|i: int| 0 <= i < c.buffer.len() ==> live[k + i] == c.buffer[i]);
    // No token comes back.
    assert forall|x: nat| d.stack.contains(x) || d.buffer.contains(x) implies c.stack.contains(x)
        || c.buffer.contains(x) by {
        if d.stack.contains(x) {
            let i = choose|i: int| 0 <= i < d.stack.len() && d.stack[i] == x;
            match m {
                Move::Shift => {
                    if i < k {
                        assert(c.stack[i] == x);
                    } else {
                        assert(c.buffer[0] == x);
                    }
                },
                Move::LeftArc(_) => {
                    if kind.arcs_on_stack() {
                        let i0 = if i < k - 2 { i } else { i + 1 };
                        assert(c.stack[i0] == x);
                    } else {
                        assert(c.stack[i] == x);
                    }
                },
                Move::RightArc(_) => {
                    if kind == SystemKind::ArcEager {
                        if i < k {
                            assert(c.stack[i] == x);
                        } else {
                            assert(c.buffer[0] == x);
                        }
                    } else {
                        assert(c.stack[i] == x);
                    }
                },
                Move::Reduce => {
                    assert(c.stack[i] == x);
                },
                Move::Swap => {
                    let i0 = if i < k - 2 { i } else { i + 1 };
                    assert(c.stack[i0] == x);
                },
            }
        } else {
            let j = choose|j: int| 0 <= j < d.buffer.len() && d.buffer[j] == x;
            match m {
                Move::Shift => {
                    assert(c.buffer[j + 1] == x);
                },
                Move::RightArc(_) => {
                    if kind == SystemKind::ArcEager {
                        assert(c.buffer[j + 1] == x);
                    } else {
                        assert(c.buffer[j] == x);
                    }
                },
                Move::Swap => {
                    if j == 0 {
                        assert(c.stack[k - 2] == x);
                    } else {
                        assert(c.buffer[j - 1] == x);
                    }
                },
                _ => {
                    assert(c.buffer[j] == x);
                },
            }
        }
    }
    // The head of a token that leaves stays.
    assert forall|x: nat|
        #[trigger] retired(d, x) && !retired(c, x) && d.arcs.dom().contains(x) implies !retired(
        d,
        d.arcs[x].0,
    ) by {
        match m {
            Move::Shift => {
                assert(d.stack.contains(x) || d.buffer.contains(x)) by {
                    if c.stack.contains(x) {
                        let i = choose|i: int| 0 <= i < c.stack.len() && c.stack[i] == x;
                        assert(d.stack[i] == x);
                    } else {
                        let j = choose|j: int| 0 <= j < c.buffer.len() && c.buffer[j] == x;
                        if j == 0 {
                            assert(d.stack[k] == x);
                        } else {
                            assert(d.buffer[j - 1] == x);
                        }
                    }
                }
            },
            Move::LeftArc(_) => {
                if kind.arcs_on_stack() {
                    assert(x == c.second()) by {
                        if c.stack.contains(x) {
                            let i = choose|i: int| 0 <= i < c.stack.len() && c.stack[i] == x;
                            if i != k - 2 {
                                let i1 = if i < k - 2 { i } else { i - 1 };
                                assert(d.stack[i1] == x);
                            }
                        } else {
                            let j = choose|j: int| 0 <= j < c.buffer.len() && c.buffer[j] == x;
                            assert(d.buffer[j] == x);
                        }
                    }
                    assert(d.stack[k - 2] == c.top());
                } else {
                    assert(x == c.top()) by {
                        if c.stack.contains(x) {
                            let i = choose|i: int| 0 <= i < c.stack.len() && c.stack[i] == x;
                            if i != k - 1 {
                                assert(d.stack[i] == x);
                            }
                        } else {
                            let j = choose|j: int| 0 <= j < c.buffer.len() && c.buffer[j] == x;
                            assert(d.buffer[j] == x);
                        }
                    }
                    assert(d.buffer[0] == c.front());
                }
            },
            Move::RightArc(_) => {
                if kind == SystemKind::ArcEager {
                    assert(d.stack.contains(x) || d.buffer.contains(x)) by {
                        if c.stack.contains(x) {
                            let i = choose|i: int| 0 <= i < c.stack.len() && c.stack[i] == x;
                            assert(d.stack[i] == x);
                        } else {
                            let j = choose|j: int| 0 <= j < c.buffer.len() && c.buffer[j] == x;
                            if j == 0 {
                                assert(d.stack[k] == x);
                            } else {
                                assert(d.buffer[j - 1] == x);
                            }
                        }
                    }
                } else {
                    assert(x == c.top()) by {
                        if c.stack.contains(x) {
                            let i = choose|i: int| 0 <= i < c.stack.len() && c.stack[i] == x;
                            if i != k - 1 {
                                assert(d.stack[i] == x);
                            }
                        } else {
                            let j = choose|j: int| 0 <= j < c.buffer.len() && c.buffer[j] == x;
                            assert(d.buffer[j] == x);
                        }
                    }
                    assert(d.stack[k - 2] == c.second());
                }
            },
            Move::Reduce => {
                assert(x == c.top()) by {
                    if c.stack.contains(x) {
                        let i = choose|i: int| 0 <= i < c.stack.len() && c.stack[i] == x;
                        if i != k - 1 {
                            assert(d.stack[i] == x);
                        }
                    } else {
                        let j = choose|j: int| 0 <= j < c.buffer.len() && c.buffer[j] == x;
                        assert(d.buffer[j] == x);
                    }
                }
                assert(c.arcs.dom().contains(c.stack[k - 1]));
                assert(d.stack[k - 2] == c.stack[k - 2]);
            },
            Move::Swap => {
                assert(d.stack.contains(x) || d.buffer.contains(x)) by {
                    if c.stack.contains(x) {
                        let i = choose|i: int| 0 <= i < c.stack.len() && c.stack[i] == x;
                        if i == k - 2 {
                            assert(d.buffer[0] == x);
                        } else {
                            let i1 = if i < k - 2 { i } else { i - 1 };
                            assert(d.stack[i1] == x);
                        }
                    } else {
                        let j = choose|j: int| 0 <= j < c.buffer.len() && c.buffer[j] == x;
                        assert(d.buffer[j + 1] == x);
                    }
                }
            },
        }
    }
    if kind == SystemKind::ArcEager {
        assert forall|i: int|
            0 <= i < d.stack.len() && d.arcs.dom().contains(#[trigger] d.stack[i]) implies i >= 1
            && d.arcs[d.stack[i]].0 == d.stack[i - 1] by {
            if i < k && i < d.stack.len() {
                assert(d.stack[i] == c.stack[i]);
                match m {
                    Move::LeftArc(_) => {
                        assert(c.stack[i] != c.stack[k - 1]);
                    },
                    Move::RightArc(_) => {
                        assert(!c.stack.contains(c.buffer[0]));
                        assert(c.stack[i] != c.buffer[0]);
                    },
                    _ => {},
                }
                assert(c.arcs.dom().contains(c.stack[i]));
                assert(d.stack[i - 1] == c.stack[i - 1]);
            } else {
                assert(d.stack[k] == c.buffer[0]);
                assert(!c.arcs.dom().contains(c.buffer[0]));
                assert(d.stack[k - 1] == c.stack[k - 1]);
            }
        }
    }
}

/// A legal transition keeps the times in order: the tokens that leave with
/// it leave at the time that the potential tells.
proof fn lemma_step_timed(
    kind: SystemKind,
    c: Configuration,
    m: Move,
    left_at: spec_fn(nat) -> nat,
    start: nat,
) -> (after: spec_fn(nat) -> nat)
    requires
        timed(kind, c, left_at, start),
        legal(kind, c, m),
    ensures
        timed(kind, step(kind, c, m), after, start),
{
    let d = step(kind, c, m);
    let now = (start - c.potential()) as nat;
    let after = |x: nat|
        if retired(d, x) && !retired(c, x) {
            now
        } else {
            left_at(x)
        };
    let beyond = start + c.tokens + 2;
    lemma_step_consistent(kind, c, m);
    lemma_step_keeps_order(kind, c, m);
    lemma_stack_facts(kind, c);
    lemma_stack_facts(kind, d);
    assert forall|x: nat| #[trigger] retired(d, x) implies after(x) + d.potential() < start by {
        if retired(c, x) {
            assert(left_at(x) + c.potential() < start);
        }
    }
    assert forall|x: nat| #[trigger] c.arcs.dom().contains(x) implies d.arcs[x] == c.arcs[x] by {}
    assert forall|x: nat| #[trigger]
        d.arcs.dom().contains(x) implies height(d, after, beyond, x) < height(
        d,
        after,
        beyond,
        d.arcs[x].0,
    ) by {
        let h = d.arcs[x].0;
        if d.stack.contains(x) {
            let i = choose|i: int| 0 <= i < d.stack.len() && d.stack[i] == x;
            assert(kind == SystemKind::ArcEager);
            assert(d.stack[i - 1] == h);
            lemma_place(d.stack, i);
            lemma_place(d.stack, i - 1);
            assert(d.stack.contains(h));
        } else if d.buffer.contains(x) {
            let j = choose|j: int| 0 <= j < d.buffer.len() && d.buffer[j] == x;
            assert(false);
        } else {
            assert(retired(d, x));
            assert(after(x) + d.potential() < start);
            if d.stack.contains(h) {
                let i = choose|i: int| 0 <= i < d.stack.len() && d.stack[i] == h;
                lemma_place(d.stack, i);
            } else if d.buffer.contains(h) {
            } else {
                assert(retired(d, h));
                assert(retired(c, x));
                assert(c.arcs.dom().contains(x)) by {
                    if !c.arcs.dom().contains(x) {
                        assert(c.live().contains(x));
                        let q = choose|q: int| 0 <= q < c.live().len() && c.live()[q] == x;
                        if q < c.stack.len() {
                            assert(c.stack[q] == x);
                        } else {
                            assert(c.buffer[q - c.stack.len()] == x);
                        }
                    }
                }
                assert(height(c, left_at, beyond, x) < height(c, left_at, beyond, c.arcs[x].0));
                if !retired(c, h) {
                    assert(left_at(x) + c.potential() < start);
                }
            }
        }
    }
    after
}

/// Every configuration that a parse reaches has its tokens' times in order.
pub(crate) proof fn lemma_run_timed(kind: SystemKind, n: nat, moves: Seq<Move>) -> (left_at: spec_fn(nat) -> nat)
    requires
        legal_run(kind, initial(n), moves),
    ensures
        timed(kind, run(kind, initial(n), moves), left_at, initial(n).potential()),
    decreases moves.len(),
{
    let start = initial(n).potential();
    if moves.len() == 0 {
        let c = initial(n);
        lemma_initial_consistent(kind, n);
        let none = |x: nat| 0nat;
        assert forall|x: nat| !(#[trigger] retired(c, x)) by {
            if 1 <= x <= n {
                assert(c.buffer[x - 1] == x);
            }
        }
        assert(timed(kind, c, none, start));
        none
    } else {
        let before = lemma_run_timed(kind, n, moves.drop_last());
        lemma_step_timed(kind, run(kind, initial(n), moves.drop_last()), moves.last(), before, start)
    }
}

/// The arcs of a parse never close a cycle, whichever legal transitions
/// were chosen.
pub proof fn lemma_arcs_are_acyclic(kind: SystemKind, n: nat, moves: Seq<Move>)
    requires
        legal_run(kind, initial(n), moves),
    ensures
        acyclic(run(kind, initial(n), moves).arcs),
{
    let c = run(kind, initial(n), moves);
    let start = initial(n).potential();
    let left_at = lemma_run_timed(kind, n, moves);
    let heights = |x: nat| height(c, left_at, start + c.tokens + 2, x);
    assert(ranked(c.arcs, heights));
}

/// Whether `arcs` make a tree of the tokens `1..=n`: heads are tokens,
/// one token has no head, and no token is reached from itself.
pub open spec fn rooted_tree(arcs: Map<nat, Attachment>, n: nat) -> bool {
    &&& acyclic(arcs)
    &&& forall|m: nat| #[trigger] arcs.dom().contains(m) ==> 1 <= m <= n && 1 <= arcs[m].0 <= n
    &&& exists|r: nat| #[trigger] sole_root(arcs, n, r)
}

/// Whether `r` is the one token of `1..=n` that has no head.
pub open spec fn sole_root(arcs: Map<nat, Attachment>, n: nat, r: nat) -> bool {
    1 <= r <= n && forall|t: nat| 1 <= t <= n ==> (#[trigger] arcs.dom().contains(t) <==> t != r)
}

/// The arcs of a finished parse of a sentence with tokens make a tree,
/// whichever legal transitions were chosen.
pub proof fn lemma_parse_is_a_tree(kind: SystemKind, n: nat, arcs: Map<nat, Attachment>)
    requires
        n >= 1,
        parse_of(kind, n, arcs),
    ensures
        rooted_tree(arcs, n),
{
    let end = choose|end: Configuration| #[trigger]
        reaches(kind, initial(n), end) && terminal(kind, end) && end.arcs == arcs;
    let moves = choose|moves: Seq<Move>|
        legal_run(kind, initial(n), moves) && run(kind, initial(n), moves) == end;
    lemma_arcs_are_acyclic(kind, n, moves);
    lemma_initial_consistent(kind, n);
    lemma_run_consistent(kind, initial(n), moves);
    lemma_terminal_has_one_root(kind, end);
    assert(sole_root(arcs, n, end.stack[0]));
}

} // verus!
