//! Projective trees, and why the static oracles build them.
//!
//! A tree is projective if every token between a head and one of its
//! dependents descends from that head: drawn above the sentence, no two arcs
//! cross. The oracles of the systems that build arcs between the two topmost
//! stack tokens build every projective tree, and nothing but it.

use vstd::prelude::*;
use crate::gold::{is_child, projective_order, rank, GoldTree};
use crate::inorder::lemma_projective_order_of_projective_tree;
use crate::laws::{lemma_initial_consistent, lemma_step_consistent};
use crate::model::{
    initial, legal, step, terminal, Attachment, Configuration, Move, SystemKind,
};
use crate::oracle::{due, lemma_oracle_legal, oracle, resolved};
use crate::train::{oracle_builds, oracle_end};

verus! {

/// Whether `d` descends from `a` by at most `steps` arcs, and by one at least.
pub open spec fn descends(gold: Map<nat, Attachment>, d: nat, a: nat, steps: nat) -> bool
    decreases steps,
{
    steps > 0 && gold.dom().contains(d) && (gold[d].0 == a || descends(
        gold,
        gold[d].0,
        a,
        (steps - 1) as nat,
    ))
}

/// Whether `gold` is a tree over the tokens `1..=n`, with the depths `depth`:
/// heads are tokens, a token lies one deeper than its head, and at most one
/// token has no head.
pub open spec fn is_tree(gold: Map<nat, Attachment>, n: nat, depth: spec_fn(nat) -> nat) -> bool {
    &&& forall|m: nat| #[trigger]
        gold.dom().contains(m) ==> 1 <= m <= n && 1 <= gold[m].0 <= n && depth(m) == depth(
            gold[m].0,
        ) + 1
    &&& forall|s: nat, t: nat|
        1 <= s <= n && 1 <= t <= n && !gold.dom().contains(s) && !gold.dom().contains(t) ==> s
            == t
}

/// Whether no arc of `gold` spans a token that does not descend from its head.
pub open spec fn is_projective(gold: Map<nat, Attachment>, n: nat) -> bool {
    forall|m: nat, k: nat| #[trigger]
        gold.dom().contains(m) && ((m < k < gold[m].0) || (gold[m].0 < k < m)) ==> #[trigger] descends(
            gold,
            k,
            gold[m].0,
            n,
        )
}

/// What descends by some arcs descends by more.
pub(crate) proof fn lemma_longer(gold: Map<nat, Attachment>, x: nat, z: nat, a: nat, b: nat)
    requires
        descends(gold, x, z, a),
        a <= b,
    ensures
        descends(gold, x, z, b),
    decreases a,
{
    if gold[x].0 != z {
        lemma_longer(gold, gold[x].0, z, (a - 1) as nat, (b - 1) as nat);
    }
}

/// A descendant of a descendant is a descendant, by the arcs of both ways.
pub(crate) proof fn lemma_joined(
    gold: Map<nat, Attachment>,
    x: nat,
    y: nat,
    z: nat,
    a: nat,
    b: nat,
)
    requires
        descends(gold, x, y, a),
        descends(gold, y, z, b),
    ensures
        descends(gold, x, z, a + b),
    decreases a,
{
    if gold[x].0 == y {
        lemma_longer(gold, y, z, b, (a + b - 1) as nat);
    } else {
        lemma_joined(gold, gold[x].0, y, z, (a - 1) as nat, b);
    }
}

/// Whether `gold` is a projective tree over the tokens `1..=n`.
pub open spec fn is_projective_tree(gold: Map<nat, Attachment>, n: nat) -> bool {
    is_projective(gold, n) && exists|depth: spec_fn(nat) -> nat| #[trigger] is_tree(gold, n, depth)
}

/// A descendant lies deeper than its ancestor, and one deeper only as its dependent.
pub(crate) proof fn lemma_descendant_depth(
    gold: Map<nat, Attachment>,
    n: nat,
    depth: spec_fn(nat) -> nat,
    d: nat,
    a: nat,
    steps: nat,
)
    requires
        is_tree(gold, n, depth),
        descends(gold, d, a, steps),
    ensures
        depth(d) >= depth(a) + 1,
        depth(d) == depth(a) + 1 ==> is_child(gold, d, a),
    decreases steps,
{
    if gold[d].0 != a {
        lemma_descendant_depth(gold, n, depth, gold[d].0, a, (steps - 1) as nat);
    }
}

/// A token that has a head lies deeper than the token that has none.
pub(crate) proof fn lemma_root_is_highest(
    gold: Map<nat, Attachment>,
    n: nat,
    depth: spec_fn(nat) -> nat,
    t: nat,
    r: nat,
)
    requires
        is_tree(gold, n, depth),
        gold.dom().contains(t),
        1 <= r <= n,
        !gold.dom().contains(r),
    ensures
        depth(t) > depth(r),
    decreases depth(t),
{
    let h = gold[t].0;
    if gold.dom().contains(h) {
        lemma_root_is_highest(gold, n, depth, h, r);
    }
}

/// The place of a deepest token among the first `k` of `s`.
pub(crate) open spec fn deepest(s: Seq<nat>, depth: spec_fn(nat) -> nat, k: nat) -> int
    decreases k,
{
    if k <= 1 {
        0
    } else {
        let before = deepest(s, depth, (k - 1) as nat);
        if depth(s[k - 1]) > depth(s[before]) {
            k - 1
        } else {
            before
        }
    }
}

pub(crate) proof fn lemma_deepest(s: Seq<nat>, depth: spec_fn(nat) -> nat, k: nat)
    requires
        1 <= k <= s.len(),
    ensures
        0 <= deepest(s, depth, k) < k,
        forall|i: int| 0 <= i < k ==> depth(#[trigger] s[i]) <= depth(s[deepest(s, depth, k)]),
        forall|i: int|
            0 <= i < deepest(s, depth, k) ==> depth(#[trigger] s[i]) < depth(
                s[deepest(s, depth, k)],
            ),
    decreases k,
{
    if k > 1 {
        lemma_deepest(s, depth, (k - 1) as nat);
    }
}

/// What holds of the configurations through which an oracle passes on its
/// way to a tree, under the systems that take a token off the stack as they
/// attach it: the arcs are arcs of the tree, every attached token has all
/// its dependents, the buffer holds the tokens that were never shifted, and
/// the stack is in sentence order.
pub open spec fn steady(c: Configuration, gold: Map<nat, Attachment>, n: nat) -> bool {
    &&& c.tokens == n
    &&& forall|m: nat| #[trigger]
        c.arcs.dom().contains(m) ==> gold.dom().contains(m) && c.arcs[m] == gold[m]
    &&& forall|m: nat| #[trigger] c.arcs.dom().contains(m) ==> resolved(c, gold, m)
    &&& forall|i: int| 0 <= i < c.buffer.len() ==> #[trigger] c.buffer[i] == n - c.buffer.len() + 1 + i
    &&& forall|i: int, j: int| 0 <= i < j < c.stack.len() ==> c.stack[i] < c.stack[j]
    &&& forall|i: int| 0 <= i < c.stack.len() ==> #[trigger] c.stack[i] + c.buffer.len() <= n
}

/// What holds in addition where arcs are built between the two topmost
/// stack tokens: below the top of the stack no two neighbours wait only for
/// each other.
pub open spec fn on_course(c: Configuration, gold: Map<nat, Attachment>, n: nat) -> bool {
    &&& steady(c, gold, n)
    &&& forall|i: int|
        0 <= i && i + 2 < c.stack.len() ==> !waits_only(c, gold, #[trigger] c.stack[i], c.stack[i + 1])
            && !waits_only(c, gold, c.stack[i + 1], c.stack[i])
}

/// What holds in addition under arc-hybrid: no stack token waits only for
/// the token above it, and none below the top only for the token below it.
pub open spec fn on_hybrid_course(c: Configuration, gold: Map<nat, Attachment>, n: nat) -> bool {
    &&& steady(c, gold, n)
    &&& forall|i: int|
        0 <= i && i + 1 < c.stack.len() ==> !waits_only(c, gold, #[trigger] c.stack[i], c.stack[i + 1])
    &&& forall|i: int|
        0 <= i && i + 2 < c.stack.len() ==> !waits_only(c, gold, c.stack[i + 1], #[trigger] c.stack[i])
}

/// Whether `m` is a dependent of `h` that has all its own dependents.
pub open spec fn waits_only(c: Configuration, gold: Map<nat, Attachment>, m: nat, h: nat) -> bool {
    is_child(gold, m, h) && resolved(c, gold, m)
}

/// Whether `s` has an earlier place in `order` than `t`.
pub open spec fn sooner(order: Seq<nat>, s: nat, t: nat) -> bool {
    rank(order, s) < rank(order, t)
}

/// Whether `order` gives the tokens `1..=n` their places in sentence order.
pub open spec fn in_sentence_order(order: Seq<nat>, n: nat) -> bool {
    forall|s: nat, t: nat| 1 <= s < t <= n ==> #[trigger] sooner(order, s, t)
}

/// Attaching `m` changes whether a token has all its dependents only for the head of `m`.
pub(crate) proof fn lemma_resolved_after(
    c: Configuration,
    d: Configuration,
    gold: Map<nat, Attachment>,
    m: nat,
    h: nat,
    x: nat,
)
    requires
        d.arcs == c.arcs.insert(m, gold[m]),
        is_child(gold, m, h),
    ensures
        resolved(c, gold, x) ==> resolved(d, gold, x),
        x != h ==> resolved(d, gold, x) == resolved(c, gold, x),
{
    if x != h && resolved(d, gold, x) {
        assert forall|k: nat| #[trigger] gold.dom().contains(k) && gold[k].0 == x implies c.arcs.dom().contains(
            k,
        ) by {
            assert(d.arcs.dom().contains(k));
        }
    }
}

proof fn lemma_shift_on_course(
    kind: SystemKind,
    c: Configuration,
    gold: Map<nat, Attachment>,
    n: nat,
)
    requires
        kind.arcs_on_stack(),
        c.consistent(kind),
        on_course(c, gold, n),
        c.buffer.len() >= 1,
        c.stack.len() >= 2 ==> !due(c, gold, c.second(), c.top()) && !due(
            c,
            gold,
            c.top(),
            c.second(),
        ),
    ensures
        on_course(step(kind, c, Move::Shift), gold, n),
{
    let d = step(kind, c, Move::Shift);
    let k = c.stack.len() as int;
    assert(d.arcs == c.arcs);
    assert forall|x: nat| resolved(d, gold, x) == resolved(c, gold, x) by {}
    assert(c.buffer[0] == n - c.buffer.len() + 1);
    assert forall|i: int| 0 <= i < d.buffer.len() implies #[trigger] d.buffer[i] == n
        - d.buffer.len() + 1 + i by {
        assert(d.buffer[i] == c.buffer[i + 1]);
    }
    assert forall|i: int, j: int| 0 <= i < j < d.stack.len() implies d.stack[i] < d.stack[j] by {
        if j == k {
            assert(c.stack[i] + c.buffer.len() <= n);
        }
    }
    assert forall|i: int| 0 <= i < d.stack.len() implies #[trigger] d.stack[i] + d.buffer.len()
        <= n by {
        if i < k {
            assert(c.stack[i] + c.buffer.len() <= n);
        }
    }
    assert forall|i: int| 0 <= i && i + 2 < d.stack.len() implies !waits_only(
        d,
        gold,
        #[trigger] d.stack[i],
        d.stack[i + 1],
    ) && !waits_only(d, gold, d.stack[i + 1], d.stack[i]) by {
        assert(d.stack[i] == c.stack[i]);
        assert(d.stack[i + 1] == c.stack[i + 1]);
        if i + 2 == k {
            assert(!c.arcs.dom().contains(c.stack[k - 1]));
            assert(!c.arcs.dom().contains(c.stack[k - 2]));
        } else {
            assert(!waits_only(c, gold, c.stack[i], c.stack[i + 1]));
        }
    }
}

/// Attaching the token `gone` of the two topmost to the other, `head`,
/// keeps the oracle on course.
proof fn lemma_arc_on_course(
    kind: SystemKind,
    c: Configuration,
    d: Configuration,
    gold: Map<nat, Attachment>,
    n: nat,
    gone: nat,
    head: nat,
)
    requires
        kind.arcs_on_stack(),
        c.consistent(kind),
        on_course(c, gold, n),
        c.stack.len() >= 2,
        (gone == c.second() && head == c.top()) || (gone == c.top() && head == c.second()),
        due(c, gold, gone, head),
        d.tokens == c.tokens,
        d.buffer == c.buffer,
        d.arcs == c.arcs.insert(gone, gold[gone]),
        d.stack.len() == c.stack.len() - 1,
        forall|i: int| 0 <= i < c.stack.len() - 2 ==> #[trigger] d.stack[i] == c.stack[i],
        d.stack[c.stack.len() - 2] == head,
    ensures
        on_course(d, gold, n),
{
    let k = c.stack.len() as int;
    assert(c.stack[k - 2] < c.stack[k - 1]);
    assert forall|x: nat| #[trigger] d.arcs.dom().contains(x) implies resolved(d, gold, x) by {
        lemma_resolved_after(c, d, gold, gone, head, x);
    }
    assert forall|i: int, j: int| 0 <= i < j < d.stack.len() implies d.stack[i] < d.stack[j] by {
        assert(d.stack[i] == c.stack[i]);
        assert(c.stack[i] < c.stack[k - 2]);
        assert(c.stack[i] < c.stack[k - 1]);
        if j < k - 2 {
            assert(d.stack[j] == c.stack[j]);
        }
    }
    assert forall|i: int| 0 <= i < d.stack.len() implies #[trigger] d.stack[i] + d.buffer.len()
        <= n by {
        assert(c.stack[k - 1] + c.buffer.len() <= n);
        assert(c.stack[k - 2] + c.buffer.len() <= n);
        if i < k - 2 {
            assert(c.stack[i] + c.buffer.len() <= n);
        }
    }
    assert forall|i: int| 0 <= i && i + 2 < d.stack.len() implies !waits_only(
        d,
        gold,
        #[trigger] d.stack[i],
        d.stack[i + 1],
    ) && !waits_only(d, gold, d.stack[i + 1], d.stack[i]) by {
        assert(d.stack[i] == c.stack[i]);
        assert(d.stack[i + 1] == c.stack[i + 1]);
        assert(c.stack[i] < c.stack[k - 2]);
        assert(c.stack[i + 1] < c.stack[k - 2]);
        assert(!waits_only(c, gold, c.stack[i], c.stack[i + 1]));
        assert(!waits_only(c, gold, c.stack[i + 1], c.stack[i]));
        lemma_resolved_after(c, d, gold, gone, head, c.stack[i]);
        lemma_resolved_after(c, d, gold, gone, head, c.stack[i + 1]);
    }
}

/// The oracle stays on course.
proof fn lemma_stays_on_course(
    kind: SystemKind,
    c: Configuration,
    gold: Map<nat, Attachment>,
    n: nat,
    order: Seq<nat>,
)
    requires
        kind.arcs_on_stack(),
        in_sentence_order(order, n),
        c.consistent(kind),
        on_course(c, gold, n),
        oracle(kind, c, gold, n, order) is Some,
    ensures
        on_course(step(kind, c, oracle(kind, c, gold, n, order)->0), gold, n),
{
    let m = oracle(kind, c, gold, n, order)->0;
    let d = step(kind, c, m);
    match m {
        Move::Shift => {
            lemma_shift_on_course(kind, c, gold, n);
        },
        Move::LeftArc(_) => {
            lemma_arc_on_course(kind, c, d, gold, n, c.second(), c.top());
        },
        Move::RightArc(_) => {
            lemma_arc_on_course(kind, c, d, gold, n, c.top(), c.second());
        },
        Move::Reduce => {},
        Move::Swap => {
            // The stack is in sentence order, and so is the order that
            // the oracle goes by: it does not swap.
            let k = c.stack.len() as int;
            assert(c.stack[k - 2] < c.stack[k - 1]);
            assert(1 <= c.stack[k - 2] && c.stack[k - 1] <= n);
            assert(sooner(order, c.stack[k - 2], c.stack[k - 1]));
        },
    }
}

/// With the buffer empty, the head of a stack token is on the stack too.
proof fn lemma_head_on_stack(
    kind: SystemKind,
    c: Configuration,
    gold: Map<nat, Attachment>,
    n: nat,
    depth: spec_fn(nat) -> nat,
    i: int,
) -> (j: int)
    requires
        kind != SystemKind::ArcEager,
        is_tree(gold, n, depth),
        c.consistent(kind),
        steady(c, gold, n),
        c.buffer.len() == 0,
        0 <= i < c.stack.len(),
        gold.dom().contains(c.stack[i]),
    ensures
        0 <= j < c.stack.len(),
        j != i,
        c.stack[j] == gold[c.stack[i]].0,
{
    let x = c.stack[i];
    let h = gold[x].0;
    assert(c.live() =~= c.stack);
    assert(!c.arcs.dom().contains(x));
    if c.arcs.dom().contains(h) {
        assert(resolved(c, gold, h));
        assert(false);
    }
    assert(c.live().contains(h));
    let j = choose|j: int| 0 <= j < c.stack.len() && c.stack[j] == h;
    assert(depth(x) == depth(h) + 1);
    j
}

/// With the buffer empty and two tokens or more on the stack, two
/// neighbours on the stack wait only for each other: the one at `low` for
/// the one above it if `upward`, and the one above for the one at `low` if not.
proof fn lemma_waiting_neighbours(
    kind: SystemKind,
    c: Configuration,
    gold: Map<nat, Attachment>,
    n: nat,
    depth: spec_fn(nat) -> nat,
) -> (found: (int, bool))
    requires
        kind != SystemKind::ArcEager,
        is_tree(gold, n, depth),
        is_projective(gold, n),
        c.consistent(kind),
        steady(c, gold, n),
        c.buffer.len() == 0,
        c.stack.len() >= 2,
    ensures
        0 <= found.0,
        found.0 + 1 < c.stack.len(),
        found.1 ==> waits_only(c, gold, c.stack[found.0], c.stack[found.0 + 1]),
        !found.1 ==> waits_only(c, gold, c.stack[found.0 + 1], c.stack[found.0]),
{
    let k = c.stack.len();
    assert(c.live() =~= c.stack);
    let l = deepest(c.stack, depth, k);
    lemma_deepest(c.stack, depth, k);
    let x = c.stack[l];
    // The deepest stack token has a head: another stack token is no
    // deeper, and only one token has no head.
    if !gold.dom().contains(x) {
        let o = if l == 0 { 1int } else { 0int };
        let y = c.stack[o];
        assert(y != x) by {
            if l == 0 {
                assert(c.stack[0] < c.stack[1]);
            } else {
                assert(c.stack[0] < c.stack[l]);
            }
        }
        assert(1 <= x <= n && 1 <= y <= n);
        assert(gold.dom().contains(y));
        lemma_root_is_highest(gold, n, depth, y, x);
        assert(depth(y) <= depth(x));
        assert(false);
    }
    let h = lemma_head_on_stack(kind, c, gold, n, depth, l);
    let head = c.stack[h];
    // The neighbour of the head on the side of that token.
    let m = if h < l { h + 1 } else { h - 1 };
    let y = c.stack[m];
    assert(is_child(gold, y, head)) by {
        if m != l {
            if h < l {
                assert(c.stack[h] < c.stack[m] < c.stack[l]);
            } else {
                assert(c.stack[l] < c.stack[m] < c.stack[h]);
            }
            assert(gold.dom().contains(x) && ((x < y < gold[x].0) || (gold[x].0 < y < x)));
            assert(descends(gold, y, gold[x].0, n));
            lemma_descendant_depth(gold, n, depth, y, head, n);
            assert(depth(y) <= depth(x));
        }
    }
    assert(depth(y) == depth(x));
    assert(resolved(c, gold, y)) by {
        assert forall|e: nat| #[trigger] gold.dom().contains(e) && gold[e].0 == y implies c.arcs.dom().contains(
            e,
        ) by {
            if !c.arcs.dom().contains(e) {
                assert(c.live().contains(e));
                let q = choose|q: int| 0 <= q < c.stack.len() && c.stack[q] == e;
                assert(depth(c.stack[q]) <= depth(x));
                assert(depth(e) == depth(y) + 1);
            }
        }
    }
    assert(waits_only(c, gold, y, head));
    if h < l {
        (h, false)
    } else {
        (m, true)
    }
}

/// On course to a projective tree, the oracle knows a transition until the
/// parse has ended.
proof fn lemma_never_stuck(
    kind: SystemKind,
    c: Configuration,
    gold: Map<nat, Attachment>,
    n: nat,
    order: Seq<nat>,
    depth: spec_fn(nat) -> nat,
)
    requires
        kind.arcs_on_stack(),
        is_tree(gold, n, depth),
        is_projective(gold, n),
        c.consistent(kind),
        on_course(c, gold, n),
        !terminal(kind, c),
    ensures
        oracle(kind, c, gold, n, order) is Some,
{
    if c.buffer.len() == 0 {
        let k = c.stack.len();
        let (low, upward) = lemma_waiting_neighbours(kind, c, gold, n, depth);
        // At the top the oracle attaches the two, and below the top they
        // would not be on course.
        assert(!c.arcs.dom().contains(c.stack[low]));
        assert(!c.arcs.dom().contains(c.stack[low + 1]));
        if low + 2 < k {
            assert(!waits_only(c, gold, c.stack[low], c.stack[low + 1]) && !waits_only(
                c,
                gold,
                c.stack[low + 1],
                c.stack[low],
            ));
            assert(false);
        } else {
            assert(c.stack[low] == c.second());
            assert(c.stack[low + 1] == c.top());
        }
    }
}

proof fn lemma_hybrid_shift_on_course(c: Configuration, gold: Map<nat, Attachment>, n: nat)
    requires
        c.consistent(SystemKind::ArcHybrid),
        on_hybrid_course(c, gold, n),
        c.buffer.len() >= 1,
        c.stack.len() >= 1 ==> !due(c, gold, c.top(), c.front()),
        c.stack.len() >= 2 ==> !due(c, gold, c.top(), c.second()),
    ensures
        on_hybrid_course(step(SystemKind::ArcHybrid, c, Move::Shift), gold, n),
{
    let d = step(SystemKind::ArcHybrid, c, Move::Shift);
    let k = c.stack.len() as int;
    assert(d.arcs == c.arcs);
    assert forall|x: nat| resolved(d, gold, x) == resolved(c, gold, x) by {}
    assert(c.buffer[0] == n - c.buffer.len() + 1);
    assert forall|i: int| 0 <= i < d.buffer.len() implies #[trigger] d.buffer[i] == n
        - d.buffer.len() + 1 + i by {
        assert(d.buffer[i] == c.buffer[i + 1]);
    }
    assert forall|i: int, j: int| 0 <= i < j < d.stack.len() implies d.stack[i] < d.stack[j] by {
        if j == k {
            assert(c.stack[i] + c.buffer.len() <= n);
        }
    }
    assert forall|i: int| 0 <= i < d.stack.len() implies #[trigger] d.stack[i] + d.buffer.len()
        <= n by {
        if i < k {
            assert(c.stack[i] + c.buffer.len() <= n);
        }
    }
    assert forall|i: int| 0 <= i && i + 1 < d.stack.len() implies !waits_only(
        d,
        gold,
        #[trigger] d.stack[i],
        d.stack[i + 1],
    ) by {
        assert(d.stack[i] == c.stack[i]);
        if i + 1 == k {
            assert(d.stack[i + 1] == c.front());
            assert(!c.arcs.dom().contains(c.stack[k - 1]));
        } else {
            assert(d.stack[i + 1] == c.stack[i + 1]);
            assert(!waits_only(c, gold, c.stack[i], c.stack[i + 1]));
        }
    }
    assert forall|i: int| 0 <= i && i + 2 < d.stack.len() implies !waits_only(
        d,
        gold,
        d.stack[i + 1],
        #[trigger] d.stack[i],
    ) by {
        assert(d.stack[i] == c.stack[i]);
        assert(d.stack[i + 1] == c.stack[i + 1]);
        if i + 2 == k {
            assert(!c.arcs.dom().contains(c.stack[k - 1]));
        } else {
            assert(!waits_only(c, gold, c.stack[i + 1], c.stack[i]));
        }
    }
}

/// Attaching the top of the stack to `head`, the front of the buffer or the
/// token below the top, keeps the oracle of arc-hybrid on course.
proof fn lemma_hybrid_arc_on_course(
    c: Configuration,
    d: Configuration,
    gold: Map<nat, Attachment>,
    n: nat,
    head: nat,
)
    requires
        c.consistent(SystemKind::ArcHybrid),
        on_hybrid_course(c, gold, n),
        c.stack.len() >= 1,
        (c.buffer.len() >= 1 && head == c.front()) || (c.stack.len() >= 2 && head == c.second()),
        due(c, gold, c.top(), head),
        d.tokens == c.tokens,
        d.buffer == c.buffer,
        d.arcs == c.arcs.insert(c.top(), gold[c.top()]),
        d.stack == c.stack.drop_last(),
    ensures
        on_hybrid_course(d, gold, n),
{
    let k = c.stack.len() as int;
    let gone = c.top();
    assert forall|x: nat| #[trigger] d.arcs.dom().contains(x) implies resolved(d, gold, x) by {
        lemma_resolved_after(c, d, gold, gone, head, x);
    }
    assert forall|i: int, j: int| 0 <= i < j < d.stack.len() implies d.stack[i] < d.stack[j] by {
        assert(d.stack[i] == c.stack[i]);
        assert(d.stack[j] == c.stack[j]);
    }
    assert forall|i: int| 0 <= i < d.stack.len() implies #[trigger] d.stack[i] + d.buffer.len()
        <= n by {
        assert(c.stack[i] + c.buffer.len() <= n);
    }
    assert forall|i: int| 0 <= i && i + 1 < d.stack.len() implies !waits_only(
        d,
        gold,
        #[trigger] d.stack[i],
        d.stack[i + 1],
    ) by {
        assert(d.stack[i] == c.stack[i]);
        assert(d.stack[i + 1] == c.stack[i + 1]);
        assert(!waits_only(c, gold, c.stack[i], c.stack[i + 1]));
        assert(c.stack[i] != head) by {
            if c.buffer.len() >= 1 && head == c.front() {
                assert(c.buffer[0] == n - c.buffer.len() + 1);
                assert(c.stack[i] + c.buffer.len() <= n);
            } else {
                assert(c.stack[i] < c.stack[k - 2]);
            }
        }
        lemma_resolved_after(c, d, gold, gone, head, c.stack[i]);
    }
    assert forall|i: int| 0 <= i && i + 2 < d.stack.len() implies !waits_only(
        d,
        gold,
        d.stack[i + 1],
        #[trigger] d.stack[i],
    ) by {
        assert(d.stack[i] == c.stack[i]);
        assert(d.stack[i + 1] == c.stack[i + 1]);
        assert(!waits_only(c, gold, c.stack[i + 1], c.stack[i]));
        assert(c.stack[i + 1] < c.stack[k - 2]);
        if c.buffer.len() >= 1 && head == c.front() {
            assert(c.buffer[0] == n - c.buffer.len() + 1);
            assert(c.stack[i + 1] + c.buffer.len() <= n);
        }
        lemma_resolved_after(c, d, gold, gone, head, c.stack[i + 1]);
    }
}

/// The oracle of arc-hybrid stays on course.
proof fn lemma_stays_on_hybrid_course(
    c: Configuration,
    gold: Map<nat, Attachment>,
    n: nat,
    order: Seq<nat>,
)
    requires
        c.consistent(SystemKind::ArcHybrid),
        on_hybrid_course(c, gold, n),
        oracle(SystemKind::ArcHybrid, c, gold, n, order) is Some,
    ensures
        on_hybrid_course(
            step(SystemKind::ArcHybrid, c, oracle(SystemKind::ArcHybrid, c, gold, n, order)->0),
            gold,
            n,
        ),
{
    let kind = SystemKind::ArcHybrid;
    let m = oracle(kind, c, gold, n, order)->0;
    let d = step(kind, c, m);
    match m {
        Move::Shift => {
            lemma_hybrid_shift_on_course(c, gold, n);
        },
        Move::LeftArc(_) => {
            lemma_hybrid_arc_on_course(c, d, gold, n, c.front());
        },
        Move::RightArc(_) => {
            lemma_hybrid_arc_on_course(c, d, gold, n, c.second());
        },
        Move::Reduce => {},
        Move::Swap => {},
    }
}

/// On course to a projective tree, the oracle of arc-hybrid knows a
/// transition until the parse has ended.
proof fn lemma_hybrid_never_stuck(
    c: Configuration,
    gold: Map<nat, Attachment>,
    n: nat,
    order: Seq<nat>,
    depth: spec_fn(nat) -> nat,
)
    requires
        is_tree(gold, n, depth),
        is_projective(gold, n),
        c.consistent(SystemKind::ArcHybrid),
        on_hybrid_course(c, gold, n),
        !terminal(SystemKind::ArcHybrid, c),
    ensures
        oracle(SystemKind::ArcHybrid, c, gold, n, order) is Some,
{
    let kind = SystemKind::ArcHybrid;
    if c.buffer.len() == 0 {
        let k = c.stack.len();
        let (low, upward) = lemma_waiting_neighbours(kind, c, gold, n, depth);
        assert(!c.arcs.dom().contains(c.stack[low + 1]));
        if upward {
            assert(!waits_only(c, gold, c.stack[low], c.stack[low + 1]));
            assert(false);
        } else if low + 2 < k {
            assert(!waits_only(c, gold, c.stack[low + 1], c.stack[low]));
            assert(false);
        } else {
            assert(c.stack[low] == c.second());
            assert(c.stack[low + 1] == c.top());
        }
    }
}

/// The oracle of arc-hybrid, once on course to a projective tree, ends
/// with that tree.
proof fn lemma_hybrid_course_ends_with_the_tree(
    c: Configuration,
    gold: Map<nat, Attachment>,
    n: nat,
    order: Seq<nat>,
    depth: spec_fn(nat) -> nat,
    fuel: nat,
)
    requires
        is_tree(gold, n, depth),
        is_projective(gold, n),
        c.consistent(SystemKind::ArcHybrid),
        on_hybrid_course(c, gold, n),
        fuel >= c.potential(),
    ensures
        terminal(
            SystemKind::ArcHybrid,
            oracle_end(SystemKind::ArcHybrid, c, gold, n, order, fuel),
        ),
        oracle_end(SystemKind::ArcHybrid, c, gold, n, order, fuel).arcs == gold,
        oracle_end(SystemKind::ArcHybrid, c, gold, n, order, fuel).tokens == n,
    decreases fuel,
{
    let kind = SystemKind::ArcHybrid;
    if terminal(kind, c) {
        lemma_ends_with_the_tree(kind, c, gold, n, depth);
    } else {
        lemma_hybrid_never_stuck(c, gold, n, order, depth);
        let m = oracle(kind, c, gold, n, order)->0;
        lemma_oracle_legal(kind, c, gold, n, order);
        lemma_step_consistent(kind, c, m);
        lemma_stays_on_hybrid_course(c, gold, n, order);
        assert(fuel > 0);
        lemma_hybrid_course_ends_with_the_tree(
            step(kind, c, m),
            gold,
            n,
            order,
            depth,
            (fuel - 1) as nat,
        );
    }
}

/// On course, a parse that has ended has built the tree.
proof fn lemma_ends_with_the_tree(
    kind: SystemKind,
    c: Configuration,
    gold: Map<nat, Attachment>,
    n: nat,
    depth: spec_fn(nat) -> nat,
)
    requires
        kind != SystemKind::ArcEager,
        is_tree(gold, n, depth),
        c.consistent(kind),
        steady(c, gold, n),
        terminal(kind, c),
    ensures
        c.arcs == gold,
{
    assert(c.live() =~= c.stack);
    assert forall|m: nat| gold.dom().contains(m) implies c.arcs.dom().contains(m) by {
        if !c.arcs.dom().contains(m) {
            assert(c.live().contains(m));
            assert(c.stack.len() == 1 && c.stack[0] == m);
            let j = lemma_head_on_stack(kind, c, gold, n, depth, 0);
        }
    }
    assert(c.arcs =~= gold);
}

/// The oracle of a system that builds arcs on the stack, once on course to
/// a projective tree, ends with that tree.
proof fn lemma_course_ends_with_the_tree(
    kind: SystemKind,
    c: Configuration,
    gold: Map<nat, Attachment>,
    n: nat,
    order: Seq<nat>,
    depth: spec_fn(nat) -> nat,
    fuel: nat,
)
    requires
        kind.arcs_on_stack(),
        in_sentence_order(order, n),
        is_tree(gold, n, depth),
        is_projective(gold, n),
        c.consistent(kind),
        on_course(c, gold, n),
        fuel >= c.potential(),
    ensures
        terminal(kind, oracle_end(kind, c, gold, n, order, fuel)),
        oracle_end(kind, c, gold, n, order, fuel).arcs == gold,
        oracle_end(kind, c, gold, n, order, fuel).tokens == n,
    decreases fuel,
{
    if terminal(kind, c) {
        lemma_ends_with_the_tree(kind, c, gold, n, depth);
    } else {
        lemma_never_stuck(kind, c, gold, n, order, depth);
        let m = oracle(kind, c, gold, n, order)->0;
        lemma_oracle_legal(kind, c, gold, n, order);
        lemma_step_consistent(kind, c, m);
        lemma_stays_on_course(kind, c, gold, n, order);
        assert(fuel > 0);
        lemma_course_ends_with_the_tree(
            kind,
            step(kind, c, m),
            gold,
            n,
            order,
            depth,
            (fuel - 1) as nat,
        );
    }
}

/// What holds of the configurations through which the oracle of arc-eager
/// passes on its way to a tree. The arcs are arcs of the tree; a token that
/// has left the stack has all its dependents; the buffer holds the tokens
/// that were never shifted and the stack is in sentence order; an attached
/// token on the stack has its head right below it. Of two neighbours on the
/// stack, the upper is a dependent of the lower if the lower is attached and
/// has all its dependents, and is attached if it is a dependent of the
/// lower; and the lower does not wait only for the upper.
pub open spec fn on_eager_course(c: Configuration, gold: Map<nat, Attachment>, n: nat) -> bool {
    &&& c.tokens == n
    &&& forall|m: nat| #[trigger]
        c.arcs.dom().contains(m) ==> gold.dom().contains(m) && c.arcs[m] == gold[m]
    &&& forall|m: nat| #[trigger]
        c.arcs.dom().contains(m) ==> resolved(c, gold, m) || c.stack.contains(m)
    &&& forall|i: int| 0 <= i < c.buffer.len() ==> #[trigger] c.buffer[i] == n - c.buffer.len() + 1 + i
    &&& forall|i: int, j: int| 0 <= i < j < c.stack.len() ==> c.stack[i] < c.stack[j]
    &&& forall|i: int| 0 <= i < c.stack.len() ==> #[trigger] c.stack[i] + c.buffer.len() <= n
    &&& forall|i: int|
        0 <= i < c.stack.len() && c.arcs.dom().contains(#[trigger] c.stack[i]) ==> i >= 1
            && gold[c.stack[i]].0 == c.stack[i - 1]
    &&& forall|i: int|
        0 <= i && i + 1 < c.stack.len() ==> eager_neighbours(c, gold, #[trigger] c.stack[i], c.stack[i + 1])
}

/// What holds of two neighbours on the stack of arc-eager, `x` below `y`.
pub open spec fn eager_neighbours(c: Configuration, gold: Map<nat, Attachment>, x: nat, y: nat) -> bool {
    &&& c.arcs.dom().contains(x) && resolved(c, gold, x) ==> is_child(gold, y, x)
    &&& is_child(gold, y, x) ==> c.arcs.dom().contains(y)
    &&& !(waits_only(c, gold, x, y) && !c.arcs.dom().contains(x))
}

/// Taking the top off the stack of arc-eager, attached before or now to the
/// front of the buffer, keeps the oracle on course.
proof fn lemma_eager_pop_on_course(
    c: Configuration,
    d: Configuration,
    gold: Map<nat, Attachment>,
    n: nat,
)
    requires
        c.consistent(SystemKind::ArcEager),
        on_eager_course(c, gold, n),
        c.stack.len() >= 1,
        d.tokens == c.tokens,
        d.buffer == c.buffer,
        d.stack == c.stack.drop_last(),
        (d.arcs == c.arcs && c.arcs.dom().contains(c.top()) && resolved(c, gold, c.top())) || (
        c.buffer.len() >= 1 && due(c, gold, c.top(), c.front()) && d.arcs == c.arcs.insert(
            c.top(),
            gold[c.top()],
        )),
    ensures
        on_eager_course(d, gold, n),
{
    let k = c.stack.len() as int;
    let t = c.top();
    let reduced = d.arcs == c.arcs;
    assert forall|x: nat| resolved(c, gold, x) implies resolved(d, gold, x) by {
        if !reduced {
            lemma_resolved_after(c, d, gold, t, c.front(), x);
        }
    }
    assert forall|i: int| 0 <= i < d.stack.len() implies #[trigger] d.stack[i] == c.stack[i]
        && c.stack[i] != t && resolved(d, gold, c.stack[i]) == resolved(c, gold, c.stack[i])
        && d.arcs.dom().contains(c.stack[i]) == c.arcs.dom().contains(c.stack[i]) by {
        assert(c.stack[i] < c.stack[k - 1]);
        if !reduced {
            assert(c.buffer[0] == n - c.buffer.len() + 1);
            assert(c.stack[i] + c.buffer.len() <= n);
            lemma_resolved_after(c, d, gold, t, c.front(), c.stack[i]);
        }
    }
    assert forall|m: nat| #[trigger] d.arcs.dom().contains(m) implies resolved(d, gold, m)
        || d.stack.contains(m) by {
        if m != t {
            assert(c.arcs.dom().contains(m));
            if c.stack.contains(m) {
                let i = choose|i: int| 0 <= i < c.stack.len() && c.stack[i] == m;
                assert(d.stack[i] == m);
            }
        }
    }
    assert forall|i: int, j: int| 0 <= i < j < d.stack.len() implies d.stack[i] < d.stack[j] by {
        assert(d.stack[i] == c.stack[i]);
        assert(d.stack[j] == c.stack[j]);
    }
    assert forall|i: int| 0 <= i < d.stack.len() implies #[trigger] d.stack[i] + d.buffer.len()
        <= n by {
        assert(c.stack[i] + c.buffer.len() <= n);
    }
    assert forall|i: int|
        0 <= i < d.stack.len() && d.arcs.dom().contains(#[trigger] d.stack[i]) implies i >= 1
        && gold[d.stack[i]].0 == d.stack[i - 1] by {
        assert(d.stack[i] == c.stack[i]);
        assert(c.arcs.dom().contains(c.stack[i]));
        assert(d.stack[i - 1] == c.stack[i - 1]);
    }
    assert forall|i: int| 0 <= i && i + 1 < d.stack.len() implies eager_neighbours(
        d,
        gold,
        #[trigger] d.stack[i],
        d.stack[i + 1],
    ) by {
        assert(d.stack[i] == c.stack[i]);
        assert(d.stack[i + 1] == c.stack[i + 1]);
        assert(eager_neighbours(c, gold, c.stack[i], c.stack[i + 1]));
    }
}

/// Putting the front of the buffer on the stack of arc-eager, attached to
/// the top or not, keeps the oracle on course.
proof fn lemma_eager_push_on_course(
    c: Configuration,
    d: Configuration,
    gold: Map<nat, Attachment>,
    n: nat,
    depth: spec_fn(nat) -> nat,
)
    requires
        is_tree(gold, n, depth),
        c.consistent(SystemKind::ArcEager),
        on_eager_course(c, gold, n),
        c.buffer.len() >= 1,
        d.tokens == c.tokens,
        d.buffer == c.buffer.drop_first(),
        d.stack == c.stack.push(c.front()),
        (d.arcs == c.arcs && (c.stack.len() >= 1 ==> !due(c, gold, c.top(), c.front())
            && !is_child(gold, c.front(), c.top()) && !(c.arcs.dom().contains(c.top())
            && resolved(c, gold, c.top())))) || (c.stack.len() >= 1 && is_child(
            gold,
            c.front(),
            c.top(),
        ) && d.arcs == c.arcs.insert(c.front(), gold[c.front()])),
    ensures
        on_eager_course(d, gold, n),
{
    let k = c.stack.len() as int;
    let b = c.front();
    let shifted = d.arcs == c.arcs;
    assert(c.buffer[0] == n - c.buffer.len() + 1);
    assert(!c.arcs.dom().contains(b));
    assert forall|x: nat| resolved(c, gold, x) implies resolved(d, gold, x) by {
        if !shifted {
            lemma_resolved_after(c, d, gold, b, c.top(), x);
        }
    }
    assert forall|i: int| 0 <= i < k implies #[trigger] d.stack[i] == c.stack[i] && c.stack[i]
        != b && d.arcs.dom().contains(c.stack[i]) == c.arcs.dom().contains(c.stack[i]) && (i + 1
        < k ==> resolved(d, gold, c.stack[i]) == resolved(c, gold, c.stack[i])) by {
        assert(c.stack[i] + c.buffer.len() <= n);
        if !shifted && i + 1 < k {
            assert(c.stack[i] < c.stack[k - 1]);
            lemma_resolved_after(c, d, gold, b, c.top(), c.stack[i]);
        }
    }
    assert forall|m: nat| #[trigger] d.arcs.dom().contains(m) implies resolved(d, gold, m)
        || d.stack.contains(m) by {
        if m == b {
            assert(d.stack[k] == b);
        } else {
            assert(c.arcs.dom().contains(m));
            if c.stack.contains(m) {
                let i = choose|i: int| 0 <= i < c.stack.len() && c.stack[i] == m;
                assert(d.stack[i] == m);
            }
        }
    }
    assert forall|i: int| 0 <= i < d.buffer.len() implies #[trigger] d.buffer[i] == n
        - d.buffer.len() + 1 + i by {
        assert(d.buffer[i] == c.buffer[i + 1]);
    }
    assert forall|i: int, j: int| 0 <= i < j < d.stack.len() implies d.stack[i] < d.stack[j] by {
        assert(d.stack[i] == c.stack[i]);
        if j == k {
            assert(c.stack[i] + c.buffer.len() <= n);
        } else {
            assert(d.stack[j] == c.stack[j]);
        }
    }
    assert forall|i: int| 0 <= i < d.stack.len() implies #[trigger] d.stack[i] + d.buffer.len()
        <= n by {
        if i < k {
            assert(c.stack[i] + c.buffer.len() <= n);
        }
    }
    assert forall|i: int|
        0 <= i < d.stack.len() && d.arcs.dom().contains(#[trigger] d.stack[i]) implies i >= 1
        && gold[d.stack[i]].0 == d.stack[i - 1] by {
        if i < k {
            assert(d.stack[i] == c.stack[i]);
            assert(c.arcs.dom().contains(c.stack[i]));
            assert(d.stack[i - 1] == c.stack[i - 1]);
        } else {
            assert(d.stack[k] == b);
            assert(d.stack[k - 1] == c.stack[k - 1]);
        }
    }
    assert forall|i: int| 0 <= i && i + 1 < d.stack.len() implies eager_neighbours(
        d,
        gold,
        #[trigger] d.stack[i],
        d.stack[i + 1],
    ) by {
        assert(d.stack[i] == c.stack[i]);
        if i + 1 < k {
            assert(d.stack[i + 1] == c.stack[i + 1]);
            assert(eager_neighbours(c, gold, c.stack[i], c.stack[i + 1]));
        } else {
            assert(d.stack[i + 1] == b);
            assert(c.stack[i] == c.top());
            if is_child(gold, c.top(), b) && is_child(gold, b, c.top()) {
                assert(depth(b) == depth(c.top()) + 1);
                assert(depth(c.top()) == depth(b) + 1);
            }
        }
    }
}

/// The oracle of arc-eager stays on course.
proof fn lemma_stays_on_eager_course(
    c: Configuration,
    gold: Map<nat, Attachment>,
    n: nat,
    order: Seq<nat>,
    depth: spec_fn(nat) -> nat,
)
    requires
        is_tree(gold, n, depth),
        c.consistent(SystemKind::ArcEager),
        on_eager_course(c, gold, n),
        oracle(SystemKind::ArcEager, c, gold, n, order) is Some,
    ensures
        on_eager_course(
            step(SystemKind::ArcEager, c, oracle(SystemKind::ArcEager, c, gold, n, order)->0),
            gold,
            n,
        ),
{
    let kind = SystemKind::ArcEager;
    let m = oracle(kind, c, gold, n, order)->0;
    let d = step(kind, c, m);
    match m {
        Move::Shift => {
            if c.stack.len() >= 1 {
                assert(!c.arcs.dom().contains(c.front()));
            }
            lemma_eager_push_on_course(c, d, gold, n, depth);
        },
        Move::LeftArc(_) => {
            lemma_eager_pop_on_course(c, d, gold, n);
        },
        Move::RightArc(_) => {
            lemma_eager_push_on_course(c, d, gold, n, depth);
        },
        Move::Reduce => {
            lemma_eager_pop_on_course(c, d, gold, n);
        },
        Move::Swap => {},
    }
}

/// With the buffer of arc-eager empty, a token that has no head yet has its
/// gold head on the stack.
proof fn lemma_eager_head_on_stack(
    c: Configuration,
    gold: Map<nat, Attachment>,
    n: nat,
    depth: spec_fn(nat) -> nat,
    i: int,
) -> (j: int)
    requires
        is_tree(gold, n, depth),
        c.consistent(SystemKind::ArcEager),
        on_eager_course(c, gold, n),
        c.buffer.len() == 0,
        0 <= i < c.stack.len(),
        gold.dom().contains(c.stack[i]),
        !c.arcs.dom().contains(c.stack[i]),
    ensures
        0 <= j < c.stack.len(),
        j != i,
        c.stack[j] == gold[c.stack[i]].0,
{
    let x = c.stack[i];
    let h = gold[x].0;
    assert(c.live() =~= c.stack);
    if !c.stack.contains(h) {
        assert(c.arcs.dom().contains(h));
        assert(resolved(c, gold, h));
        assert(false);
    }
    let j = choose|j: int| 0 <= j < c.stack.len() && c.stack[j] == h;
    assert(depth(x) == depth(h) + 1);
    j
}

/// On course to a projective tree, the oracle of arc-eager knows a
/// transition until the parse has ended.
proof fn lemma_eager_never_stuck(
    c: Configuration,
    gold: Map<nat, Attachment>,
    n: nat,
    order: Seq<nat>,
    depth: spec_fn(nat) -> nat,
)
    requires
        is_tree(gold, n, depth),
        is_projective(gold, n),
        c.consistent(SystemKind::ArcEager),
        on_eager_course(c, gold, n),
        !terminal(SystemKind::ArcEager, c),
    ensures
        oracle(SystemKind::ArcEager, c, gold, n, order) is Some,
{
    let kind = SystemKind::ArcEager;
    if c.buffer.len() == 0 {
        let k = c.stack.len() as int;
        assert(c.live() =~= c.stack);
        assert(k >= 2) by {
            if k <= 1 {
                assert forall|t: nat| 1 <= t <= c.tokens && !c.stack.contains(t) implies #[trigger] c.arcs.dom().contains(
                    t,
                ) by {
                    if !c.arcs.dom().contains(t) {
                        assert(c.live().contains(t));
                    }
                }
            }
        }
        let l = deepest(c.stack, depth, k as nat);
        lemma_deepest(c.stack, depth, k as nat);
        let x = c.stack[l];
        if !gold.dom().contains(x) {
            let o = if l == 0 { 1int } else { 0int };
            let y = c.stack[o];
            assert(y != x) by {
                if l == 0 {
                    assert(c.stack[0] < c.stack[1]);
                } else {
                    assert(c.stack[0] < c.stack[l]);
                }
            }
            assert(1 <= x <= n && 1 <= y <= n);
            assert(!c.arcs.dom().contains(x));
            assert(gold.dom().contains(y));
            lemma_root_is_highest(gold, n, depth, y, x);
            assert(depth(y) <= depth(x));
            assert(false);
        }
        // A token on the stack that is as deep as any has all its dependents.
        assert forall|q: int|
            0 <= q < k && depth(#[trigger] c.stack[q]) == depth(x) implies resolved(
            c,
            gold,
            c.stack[q],
        ) by {
            let y = c.stack[q];
            assert forall|e: nat| #[trigger] gold.dom().contains(e) && gold[e].0 == y implies c.arcs.dom().contains(
                e,
            ) by {
                if !c.arcs.dom().contains(e) {
                    assert(c.live().contains(e));
                    let p = choose|p: int| 0 <= p < c.stack.len() && c.stack[p] == e;
                    assert(depth(c.stack[p]) <= depth(x));
                    assert(depth(e) == depth(y) + 1);
                }
            }
        }
        if c.arcs.dom().contains(x) {
            assert(resolved(c, gold, c.stack[l]));
            if l + 1 < k {
                assert(eager_neighbours(c, gold, c.stack[l], c.stack[l + 1]));
                assert(depth(c.stack[l + 1]) == depth(x) + 1);
                assert(depth(c.stack[l + 1]) <= depth(x));
                assert(false);
            } else {
                assert(x == c.top());
            }
        } else {
            let h = lemma_eager_head_on_stack(c, gold, n, depth, l);
            let head = c.stack[h];
            if h < l {
                if h == l - 1 {
                    assert(eager_neighbours(c, gold, c.stack[l - 1], c.stack[l]));
                    assert(false);
                } else {
                    let y = c.stack[l - 1];
                    assert(c.stack[h] < c.stack[l - 1] < c.stack[l]);
                    assert(gold.dom().contains(x) && ((x < y < gold[x].0) || (gold[x].0 < y < x)));
                    assert(descends(gold, y, gold[x].0, n));
                    lemma_descendant_depth(gold, n, depth, y, head, n);
                    assert(depth(c.stack[l - 1]) < depth(x));
                    assert(false);
                }
            } else {
                let m = h - 1;
                let y = c.stack[m];
                assert(is_child(gold, y, head)) by {
                    if m != l {
                        assert(c.stack[l] < c.stack[m] < c.stack[h]);
                        assert(gold.dom().contains(x) && ((x < y < gold[x].0) || (gold[x].0 < y
                            < x)));
                        assert(descends(gold, y, gold[x].0, n));
                        lemma_descendant_depth(gold, n, depth, y, head, n);
                        assert(depth(c.stack[m]) <= depth(x));
                    }
                }
                assert(depth(c.stack[m]) == depth(x));
                assert(resolved(c, gold, c.stack[m]));
                if c.arcs.dom().contains(y) {
                    assert(m >= 1 && gold[c.stack[m]].0 == c.stack[m - 1]);
                    assert(c.stack[m - 1] < c.stack[m + 1]);
                    assert(false);
                }
                assert(eager_neighbours(c, gold, c.stack[m], c.stack[m + 1]));
                assert(false);
            }
        }
    }
}

/// On the course of arc-eager, a parse that has ended has built the tree.
proof fn lemma_eager_ends_with_the_tree(
    c: Configuration,
    gold: Map<nat, Attachment>,
    n: nat,
    depth: spec_fn(nat) -> nat,
)
    requires
        is_tree(gold, n, depth),
        c.consistent(SystemKind::ArcEager),
        on_eager_course(c, gold, n),
        terminal(SystemKind::ArcEager, c),
    ensures
        c.arcs == gold,
{
    assert(c.live() =~= c.stack);
    assert forall|m: nat| gold.dom().contains(m) implies c.arcs.dom().contains(m) by {
        if !c.arcs.dom().contains(m) {
            assert(c.live().contains(m));
            assert(c.stack.len() == 1 && c.stack[0] == m);
            let j = lemma_eager_head_on_stack(c, gold, n, depth, 0);
        }
    }
    assert(c.arcs =~= gold);
}

/// The oracle of arc-eager, once on course to a projective tree, ends with
/// that tree.
proof fn lemma_eager_course_ends_with_the_tree(
    c: Configuration,
    gold: Map<nat, Attachment>,
    n: nat,
    order: Seq<nat>,
    depth: spec_fn(nat) -> nat,
    fuel: nat,
)
    requires
        is_tree(gold, n, depth),
        is_projective(gold, n),
        c.consistent(SystemKind::ArcEager),
        on_eager_course(c, gold, n),
        fuel >= c.potential(),
    ensures
        terminal(SystemKind::ArcEager, oracle_end(SystemKind::ArcEager, c, gold, n, order, fuel)),
        oracle_end(SystemKind::ArcEager, c, gold, n, order, fuel).arcs == gold,
        oracle_end(SystemKind::ArcEager, c, gold, n, order, fuel).tokens == n,
    decreases fuel,
{
    let kind = SystemKind::ArcEager;
    if terminal(kind, c) {
        lemma_eager_ends_with_the_tree(c, gold, n, depth);
    } else {
        lemma_eager_never_stuck(c, gold, n, order, depth);
        let m = oracle(kind, c, gold, n, order)->0;
        lemma_oracle_legal(kind, c, gold, n, order);
        lemma_step_consistent(kind, c, m);
        lemma_stays_on_eager_course(c, gold, n, order, depth);
        assert(fuel > 0);
        lemma_eager_course_ends_with_the_tree(
            step(kind, c, m),
            gold,
            n,
            order,
            depth,
            (fuel - 1) as nat,
        );
    }
}

/// The static oracle of every system builds every projective tree:
/// replayed from the initial configuration, its transitions end the parse
/// with exactly the arcs of the tree, the head and the label of every
/// token. The oracle of stack-swap goes by the projective order of the tree.
pub proof fn lemma_oracle_builds_projective_trees(
    kind: SystemKind,
    gold: Map<nat, Attachment>,
    n: nat,
    order: Seq<nat>,
    depth: spec_fn(nat) -> nat,
)
    requires
        is_tree(gold, n, depth),
        is_projective(gold, n),
        kind == SystemKind::StackSwap ==> order == projective_order(gold, n),
    ensures
        oracle_builds(kind, initial(n), gold, n, order),
{
    let c = initial(n);
    lemma_initial_consistent(kind, n);
    assert(steady(c, gold, n));
    if kind == SystemKind::ArcHybrid {
        lemma_hybrid_course_ends_with_the_tree(c, gold, n, order, depth, c.potential());
    } else if kind == SystemKind::ArcEager {
        assert(on_eager_course(c, gold, n));
        lemma_eager_course_ends_with_the_tree(c, gold, n, order, depth, c.potential());
    } else if kind == SystemKind::StackSwap {
        assert forall|s: nat, t: nat| 1 <= s < t <= n implies #[trigger] sooner(order, s, t) by {
            lemma_projective_order_of_projective_tree(gold, n, depth, s, t);
        }
        lemma_course_ends_with_the_tree(kind, c, gold, n, order, depth, c.potential());
    } else {
        // No other system swaps, so any order will do; take one that is
        // in sentence order to go the same way.
        let plain = Seq::new(n, |i: int| (i + 1) as nat);
        lemma_plain_order(n);
        lemma_order_is_idle(kind, c, gold, n, order, plain, c.potential());
        lemma_course_ends_with_the_tree(kind, c, gold, n, plain, depth, c.potential());
    }
}

/// The static oracle builds the gold tree that it is given, if the tree is
/// projective: `oracle_transitions` then finds the transitions.
pub proof fn lemma_projective_gold_tree_is_built(kind: SystemKind, gold: GoldTree)
    requires
        gold.wf(),
        is_projective_tree(gold@, gold.size()),
    ensures
        oracle_builds(kind, initial(gold.size()), gold@, gold.size(), gold.order()),
{
    let depth = choose|depth: spec_fn(nat) -> nat| is_tree(gold@, gold.size(), depth);
    gold.lemma_order();
    lemma_oracle_builds_projective_trees(kind, gold@, gold.size(), gold.order(), depth);
}

/// The tokens in sentence order are in sentence order.
proof fn lemma_plain_order(n: nat)
    ensures
        in_sentence_order(Seq::new(n, |i: int| (i + 1) as nat), n),
{
    let plain = Seq::new(n, |i: int| (i + 1) as nat);
    assert forall|s: nat, t: nat| 1 <= s < t <= n implies #[trigger] sooner(plain, s, t) by {
        lemma_plain_rank(plain, 1, s);
        lemma_plain_rank(plain, 1, t);
    }
}

proof fn lemma_plain_rank(s: Seq<nat>, first: nat, t: nat)
    requires
        forall|i: int| 0 <= i < s.len() ==> #[trigger] s[i] == first + i,
        first <= t < first + s.len(),
    ensures
        rank(s, t) == t - first,
    decreases s.len(),
{
    if s[0] != t {
        let rest = s.drop_first();
        assert forall|i: int| 0 <= i < rest.len() implies #[trigger] rest[i] == first + 1 + i by {
            assert(rest[i] == s[i + 1]);
        }
        lemma_plain_rank(rest, first + 1, t);
    }
}

/// Where swaps are not legal, the order that the oracle is given makes no
/// difference to where it ends.
proof fn lemma_order_is_idle(
    kind: SystemKind,
    c: Configuration,
    gold: Map<nat, Attachment>,
    n: nat,
    a: Seq<nat>,
    b: Seq<nat>,
    fuel: nat,
)
    requires
        kind != SystemKind::StackSwap,
    ensures
        oracle_end(kind, c, gold, n, a, fuel) == oracle_end(kind, c, gold, n, b, fuel),
    decreases fuel,
{
    if fuel > 0 && !terminal(kind, c) {
        assert(oracle(kind, c, gold, n, a) == oracle(kind, c, gold, n, b));
        match oracle(kind, c, gold, n, a) {
            Some(m) => {
                lemma_order_is_idle(kind, step(kind, c, m), gold, n, a, b, (fuel - 1) as nat);
            },
            None => {},
        }
    }
}

} // verus!
