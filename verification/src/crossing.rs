//! The arcs of a parse do not cross, unless tokens were swapped: every
//! token between a head and one of its dependents descends from that head.

use vstd::prelude::*;
use vstd::set_lib::{lemma_int_range, lemma_len_subset, set_int_range};
use crate::forest::{chained, height, lemma_run_timed, lemma_step_keeps_order, ranked, timed};
use crate::inorder::increasing;
use crate::laws::{lemma_initial_consistent, lemma_step_consistent};
use crate::model::{
    initial, legal, legal_run, reaches, run, step, terminal, Attachment, Configuration, Move,
    SystemKind,
};
use crate::parser::parse_of;
use crate::projective::{descends, is_projective, lemma_joined, lemma_longer};

verus! {

/// Whether `x` descends from `a`, by however many arcs.
pub open spec fn hangs(arcs: Map<nat, Attachment>, x: nat, a: nat) -> bool {
    exists|steps: nat| #[trigger] descends(arcs, x, a, steps)
}

/// Whether the token `y`, which is not in work, hangs on one of the two
/// tokens in work between which it stands, or on the one next to which it
/// stands if it stands before the first or after the last.
pub open spec fn anchored(live: Seq<nat>, arcs: Map<nat, Attachment>, y: nat) -> bool {
    forall|i: int|
        0 <= i < live.len() ==> {
            &&& i == 0 && y < #[trigger] live[i] ==> hangs(arcs, y, live[i])
            &&& i + 1 == live.len() && live[i] < y ==> hangs(arcs, y, live[i])
            &&& i + 1 < live.len() && live[i] < y < live[i + 1] ==> hangs(arcs, y, live[i])
                || hangs(arcs, y, live[i + 1])
        }
}

/// What holds of the tokens in work and the arcs of a parse that does not
/// swap: the tokens in work are in sentence order, every other token hangs
/// on one of its neighbours among them, and no arc spans a token that does
/// not hang on its head.
pub open spec fn spanned(live: Seq<nat>, arcs: Map<nat, Attachment>, n: nat) -> bool {
    &&& increasing(live)
    &&& forall|y: nat| 1 <= y <= n && !live.contains(y) ==> #[trigger] anchored(live, arcs, y)
    &&& forall|m: nat, k: nat| #[trigger]
        arcs.dom().contains(m) && ((m < k < arcs[m].0) || (arcs[m].0 < k < m)) ==> #[trigger] hangs(
            arcs,
            k,
            arcs[m].0,
        )
    &&& forall|m: nat| #[trigger] arcs.dom().contains(m) ==> 1 <= m <= n && 1 <= arcs[m].0 <= n
}

proof fn lemma_more_arcs(
    arcs: Map<nat, Attachment>,
    more: Map<nat, Attachment>,
    x: nat,
    a: nat,
    steps: nat,
)
    requires
        forall|m: nat| #[trigger] arcs.dom().contains(m) ==> more.dom().contains(m) && more[m]
            == arcs[m],
        descends(arcs, x, a, steps),
    ensures
        descends(more, x, a, steps),
    decreases steps,
{
    if arcs[x].0 != a {
        lemma_more_arcs(arcs, more, arcs[x].0, a, (steps - 1) as nat);
    }
}

proof fn lemma_hangs_more(arcs: Map<nat, Attachment>, more: Map<nat, Attachment>, x: nat, a: nat)
    requires
        forall|m: nat| #[trigger] arcs.dom().contains(m) ==> more.dom().contains(m) && more[m]
            == arcs[m],
        hangs(arcs, x, a),
    ensures
        hangs(more, x, a),
{
    let steps = choose|steps: nat| descends(arcs, x, a, steps);
    lemma_more_arcs(arcs, more, x, a, steps);
}

/// What hangs on a dependent hangs on its head, and so does the dependent.
proof fn lemma_hangs_on_head(arcs: Map<nat, Attachment>, x: nat, m: nat)
    requires
        arcs.dom().contains(m),
        x == m || hangs(arcs, x, m),
    ensures
        hangs(arcs, x, arcs[m].0),
{
    assert(descends(arcs, m, arcs[m].0, 1));
    if x != m {
        let steps = choose|steps: nat| descends(arcs, x, m, steps);
        lemma_joined(arcs, x, m, arcs[m].0, steps, 1);
    }
}

/// An arc between two neighbours among the tokens in work crosses no arc.
proof fn lemma_arc_between_neighbours(
    live: Seq<nat>,
    arcs: Map<nat, Attachment>,
    n: nat,
    j: int,
    i: int,
    label: Seq<char>,
)
    requires
        spanned(live, arcs, n),
        0 <= j < live.len(),
        0 <= i < live.len(),
        i == j + 1 || j == i + 1,
        !arcs.dom().contains(live[j]),
        1 <= live[j] <= n,
        1 <= live[i] <= n,
    ensures
        spanned(live, arcs.insert(live[j], (live[i], label)), n),
{
    let m = live[j];
    let h = live[i];
    let more = arcs.insert(m, (h, label));
    assert forall|x: nat| #[trigger] arcs.dom().contains(x) implies more.dom().contains(x)
        && more[x] == arcs[x] by {}
    assert forall|y: nat| 1 <= y <= n && !live.contains(y) implies #[trigger] anchored(
        live,
        more,
        y,
    ) by {
        assert(anchored(live, arcs, y));
        assert forall|q: int| 0 <= q < live.len() implies {
            &&& q == 0 && y < #[trigger] live[q] ==> hangs(more, y, live[q])
            &&& q + 1 == live.len() && live[q] < y ==> hangs(more, y, live[q])
            &&& q + 1 < live.len() && live[q] < y < live[q + 1] ==> hangs(more, y, live[q])
                || hangs(more, y, live[q + 1])
        } by {
            if q == 0 && y < live[q] {
                lemma_hangs_more(arcs, more, y, live[q]);
            }
            if q + 1 == live.len() && live[q] < y {
                lemma_hangs_more(arcs, more, y, live[q]);
            }
            if q + 1 < live.len() && live[q] < y < live[q + 1] {
                if hangs(arcs, y, live[q]) {
                    lemma_hangs_more(arcs, more, y, live[q]);
                } else {
                    lemma_hangs_more(arcs, more, y, live[q + 1]);
                }
            }
        }
    }
    assert forall|x: nat, k: nat| #[trigger]
        more.dom().contains(x) && ((x < k < more[x].0) || (more[x].0 < k < x)) implies #[trigger] hangs(
        more,
        k,
        more[x].0,
    ) by {
        if x == m {
            let low = if i < j { i } else { j };
            assert(live[low] < k < live[low + 1]);
            assert(!live.contains(k)) by {
                if live.contains(k) {
                    let q = choose|q: int| 0 <= q < live.len() && live[q] == k;
                    if q < low {
                        assert(live[q] < live[low]);
                    } else if q > low + 1 {
                        assert(live[low + 1] < live[q]);
                    }
                }
            }
            assert(anchored(live, arcs, k));
            assert(hangs(arcs, k, live[low]) || hangs(arcs, k, live[low + 1]));
            if hangs(arcs, k, h) {
                lemma_hangs_more(arcs, more, k, h);
            } else {
                lemma_hangs_more(arcs, more, k, m);
                lemma_hangs_on_head(more, k, m);
            }
        } else {
            assert(hangs(arcs, k, arcs[x].0));
            lemma_hangs_more(arcs, more, k, arcs[x].0);
        }
    }
}

/// Taking out of work a token whose head is its neighbour among the tokens
/// in work leaves every token hanging on a neighbour.
proof fn lemma_leaves_next_to_head(
    live: Seq<nat>,
    arcs: Map<nat, Attachment>,
    n: nat,
    j: int,
    i: int,
)
    requires
        spanned(live, arcs, n),
        0 <= j < live.len(),
        0 <= i < live.len(),
        i == j + 1 || j == i + 1,
        arcs.dom().contains(live[j]),
        arcs[live[j]].0 == live[i],
    ensures
        spanned(live.remove(j), arcs, n),
{
    let m = live[j];
    let rest = live.remove(j);
    assert forall|a: int, b: int| 0 <= a < b < rest.len() implies rest[a] < rest[b] by {
        let a0 = if a < j { a } else { a + 1 };
        let b0 = if b < j { b } else { b + 1 };
        assert(rest[a] == live[a0] && rest[b] == live[b0]);
    }
    assert forall|y: nat| 1 <= y <= n && !rest.contains(y) implies #[trigger] anchored(
        rest,
        arcs,
        y,
    ) by {
        // What hung on the token that leaves hangs on its head.
        assert(y == m || hangs(arcs, y, m) ==> hangs(arcs, y, live[i])) by {
            if y == m || hangs(arcs, y, m) {
                lemma_hangs_on_head(arcs, y, m);
            }
        }
        if y != m {
            assert(!live.contains(y)) by {
                if live.contains(y) {
                    let q = choose|q: int| 0 <= q < live.len() && live[q] == y;
                    let q1 = if q < j { q } else { q - 1 };
                    assert(rest[q1] == y);
                }
            }
            assert(anchored(live, arcs, y));
        }
        assert forall|q: int| 0 <= q < rest.len() implies {
            &&& q == 0 && y < #[trigger] rest[q] ==> hangs(arcs, y, rest[q])
            &&& q + 1 == rest.len() && rest[q] < y ==> hangs(arcs, y, rest[q])
            &&& q + 1 < rest.len() && rest[q] < y < rest[q + 1] ==> hangs(arcs, y, rest[q])
                || hangs(arcs, y, rest[q + 1])
        } by {
            let q0 = if q < j { q } else { q + 1 };
            assert(rest[q] == live[q0]);
            if q + 1 < rest.len() {
                let q1 = if q + 1 < j { q + 1 } else { q + 2 };
                assert(rest[q + 1] == live[q1]);
            }
            if j > 0 {
                assert(live[j - 1] < live[j]);
            }
            if j + 1 < live.len() {
                assert(live[j] < live[j + 1]);
            }
            if q == 0 && y < rest[q] {
                if j == 0 {
                    assert(live[0] < live[1]);
                    if y < live[0] {
                        assert(hangs(arcs, y, live[0]));
                    } else if y > live[0] {
                        assert(hangs(arcs, y, live[0]) || hangs(arcs, y, live[1]));
                    }
                }
            }
            if q + 1 == rest.len() && rest[q] < y {
                if j + 1 == live.len() {
                    assert(live[j - 1] < live[j]);
                    if y > live[j] {
                        assert(hangs(arcs, y, live[j]));
                    } else if y < live[j] {
                        assert(hangs(arcs, y, live[j - 1]) || hangs(arcs, y, live[j]));
                    }
                }
            }
            if q + 1 < rest.len() && rest[q] < y < rest[q + 1] {
                if q + 1 == j {
                    // The gap that the token left: between its two neighbours.
                    if y < live[j] {
                        assert(hangs(arcs, y, live[j - 1]) || hangs(arcs, y, live[j]));
                    } else if y > live[j] {
                        assert(hangs(arcs, y, live[j]) || hangs(arcs, y, live[j + 1]));
                    }
                }
            }
        }
    }
}

/// The tokens in work and the arcs of a parse stay spanned with every
/// legal transition of a system that does not swap.
proof fn lemma_step_spanned(kind: SystemKind, c: Configuration, m: Move)
    requires
        kind != SystemKind::StackSwap,
        c.consistent(kind),
        kind == SystemKind::ArcEager ==> chained(c),
        spanned(c.live(), c.arcs, c.tokens),
        legal(kind, c, m),
    ensures
        spanned(step(kind, c, m).live(), step(kind, c, m).arcs, c.tokens),
{
    let d = step(kind, c, m);
    let live = c.live();
    let n = c.tokens;
    let k = c.stack.len() as int;
    assert(forall|i: int| 0 <= i < k ==> live[i] == c.stack[i]);
    assert(forall|i: int| 0 <= i < c.buffer.len() ==> live[k + i] == c.buffer[i]);
    match m {
        Move::Shift => {
            assert(d.live() =~= live);
        },
        Move::LeftArc(label) => {
            if kind.arcs_on_stack() {
                assert(live[k - 2] == c.second() && live[k - 1] == c.top());
                lemma_arc_between_neighbours(live, c.arcs, n, k - 2, k - 1, label);
                lemma_leaves_next_to_head(live, d.arcs, n, k - 2, k - 1);
                assert(d.live() =~= live.remove(k - 2));
            } else {
                assert(live[k - 1] == c.top() && live[k] == c.front());
                lemma_arc_between_neighbours(live, c.arcs, n, k - 1, k, label);
                lemma_leaves_next_to_head(live, d.arcs, n, k - 1, k);
                assert(d.live() =~= live.remove(k - 1));
            }
        },
        Move::RightArc(label) => {
            if kind == SystemKind::ArcEager {
                assert(live[k - 1] == c.top() && live[k] == c.front());
                assert(!c.arcs.dom().contains(c.buffer[0]));
                lemma_arc_between_neighbours(live, c.arcs, n, k, k - 1, label);
                assert(d.live() =~= live);
            } else {
                assert(live[k - 2] == c.second() && live[k - 1] == c.top());
                lemma_arc_between_neighbours(live, c.arcs, n, k - 1, k - 2, label);
                lemma_leaves_next_to_head(live, d.arcs, n, k - 1, k - 2);
                assert(d.live() =~= live.remove(k - 1));
            }
        },
        Move::Reduce => {
            assert(live[k - 1] == c.top());
            assert(c.arcs.dom().contains(c.stack[k - 1]));
            assert(live[k - 2] == c.stack[k - 2]);
            lemma_leaves_next_to_head(live, c.arcs, n, k - 1, k - 2);
            assert(d.live() =~= live.remove(k - 1));
        },
        Move::Swap => {},
    }
}

/// Every configuration that a parse without swaps reaches is spanned.
proof fn lemma_run_spanned(kind: SystemKind, n: nat, moves: Seq<Move>)
    requires
        kind != SystemKind::StackSwap,
        legal_run(kind, initial(n), moves),
    ensures
        spanned(run(kind, initial(n), moves).live(), run(kind, initial(n), moves).arcs, n),
        run(kind, initial(n), moves).consistent(kind),
        run(kind, initial(n), moves).tokens == n,
        kind == SystemKind::ArcEager ==> chained(run(kind, initial(n), moves)),
    decreases moves.len(),
{
    if moves.len() == 0 {
        let c = initial(n);
        lemma_initial_consistent(kind, n);
        assert(c.live() =~= c.buffer);
        assert forall|y: nat| 1 <= y <= n implies c.live().contains(y) by {
            assert(c.live()[y - 1] == y);
        }
    } else {
        let c = run(kind, initial(n), moves.drop_last());
        lemma_run_spanned(kind, n, moves.drop_last());
        lemma_step_consistent(kind, c, moves.last());
        lemma_step_keeps_order(kind, c, moves.last());
        lemma_step_spanned(kind, c, moves.last());
    }
}

/// The tokens on the way from `x` up to `a`: as many as there are arcs on
/// the way, and one more.
proof fn lemma_way_up(
    arcs: Map<nat, Attachment>,
    heights: spec_fn(nat) -> nat,
    n: nat,
    x: nat,
    a: nat,
    steps: nat,
) -> (way: (Set<int>, nat))
    requires
        ranked(arcs, heights),
        forall|m: nat| #[trigger] arcs.dom().contains(m) ==> 1 <= m <= n && 1 <= arcs[m].0 <= n,
        descends(arcs, x, a, steps),
    ensures
        descends(arcs, x, a, way.1),
        way.0.finite(),
        way.0.len() == way.1 + 1,
        forall|y: int| way.0.contains(y) ==> 1 <= y <= n && heights(x) <= heights(y as nat),
    decreases steps,
{
    if arcs[x].0 == a {
        let way = set![a as int].insert(x as int);
        (way, 1)
    } else {
        let (above, len) = lemma_way_up(arcs, heights, n, arcs[x].0, a, (steps - 1) as nat);
        (above.insert(x as int), len + 1)
    }
}

/// A token that hangs on another hangs on it by fewer arcs than the
/// sentence has tokens.
proof fn lemma_hangs_closely(
    arcs: Map<nat, Attachment>,
    heights: spec_fn(nat) -> nat,
    n: nat,
    x: nat,
    a: nat,
)
    requires
        ranked(arcs, heights),
        forall|m: nat| #[trigger] arcs.dom().contains(m) ==> 1 <= m <= n && 1 <= arcs[m].0 <= n,
        hangs(arcs, x, a),
    ensures
        descends(arcs, x, a, n),
{
    let steps = choose|steps: nat| descends(arcs, x, a, steps);
    let (way, len) = lemma_way_up(arcs, heights, n, x, a, steps);
    lemma_int_range(1, n as int + 1);
    assert(way.subset_of(set_int_range(1, n as int + 1)));
    lemma_len_subset(way, set_int_range(1, n as int + 1));
    lemma_longer(arcs, x, a, len, n);
}

/// The arcs of a parse do not cross, whichever legal transitions were
/// chosen, under every system that does not swap.
pub proof fn lemma_arcs_do_not_cross(kind: SystemKind, n: nat, moves: Seq<Move>)
    requires
        kind != SystemKind::StackSwap,
        legal_run(kind, initial(n), moves),
    ensures
        is_projective(run(kind, initial(n), moves).arcs, n),
{
    let c = run(kind, initial(n), moves);
    lemma_run_spanned(kind, n, moves);
    let start = initial(n).potential();
    let left_at = lemma_run_timed(kind, n, moves);
    assert(timed(kind, c, left_at, start));
    let heights = |x: nat| height(c, left_at, start + c.tokens + 2, x);
    assert(ranked(c.arcs, heights));
    assert forall|m: nat, k: nat| #[trigger]
        c.arcs.dom().contains(m) && ((m < k < c.arcs[m].0) || (c.arcs[m].0 < k < m)) implies #[trigger] descends(
        c.arcs,
        k,
        c.arcs[m].0,
        n,
    ) by {
        assert(hangs(c.arcs, k, c.arcs[m].0));
        lemma_hangs_closely(c.arcs, heights, n, k, c.arcs[m].0);
    }
}

/// The arcs of a finished parse do not cross, under every system that does
/// not swap.
pub proof fn lemma_parse_is_projective(kind: SystemKind, n: nat, arcs: Map<nat, Attachment>)
    requires
        kind != SystemKind::StackSwap,
        parse_of(kind, n, arcs),
    ensures
        is_projective(arcs, n),
{
    let end = choose|end: Configuration| #[trigger]
        reaches(kind, initial(n), end) && terminal(kind, end) && end.arcs == arcs;
    let moves = choose|moves: Seq<Move>|
        legal_run(kind, initial(n), moves) && run(kind, initial(n), moves) == end;
    lemma_arcs_do_not_cross(kind, n, moves);
}

} // verus!
