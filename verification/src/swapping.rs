//! Why the oracle of stack-swap builds every tree. In the projective order
//! of a tree the tokens of a subtree stand together; the oracle swaps until
//! the tokens on the stack are in that order, and builds arcs as the oracle
//! of arc-standard does.

use vstd::prelude::*;
use crate::gold::{is_child, projective_order, rank, subtree, subtrees, GoldTree};
use crate::inorder::{
    bounded, branch, holds_branches, holds_subtree, is_root, lemma_all_under_root, lemma_branch,
    lemma_branch_is, lemma_deeper, lemma_forest, lemma_one_ancestor, lemma_root_exists,
    lemma_under_under, level, under,
};
use crate::laws::{lemma_initial_consistent, lemma_step_consistent};
use crate::model::{
    initial, legal, step, swap_limit, terminal, Attachment, Configuration, Move, SystemKind,
};
use crate::oracle::{due, lemma_oracle_legal, oracle, resolved};
use crate::projective::{
    deepest, descends, is_tree, lemma_deepest, lemma_descendant_depth, lemma_longer,
    lemma_resolved_after, lemma_root_is_highest, waits_only,
};
use crate::train::{oracle_builds, oracle_end};

verus! {

/// Whether the tokens of every subtree stand together in `s`: a token
/// between two tokens of a subtree is of that subtree.
pub open spec fn together(gold: Map<nat, Attachment>, n: nat, s: Seq<nat>) -> bool {
    forall|h: nat, p: int, q: int, r: int|
        #![trigger under(gold, n, s[p], h), under(gold, n, s[r], h), s[q]]
        0 <= p < q < r < s.len() && under(gold, n, s[p], h) && under(gold, n, s[r], h) ==> under(
            gold,
            n,
            s[q],
            h,
        )
}

/// Of two tokens from which a token descends, one descends from the other.
proof fn lemma_comparable(
    gold: Map<nat, Attachment>,
    n: nat,
    depth: spec_fn(nat) -> nat,
    x: nat,
    a: nat,
    b: nat,
)
    requires
        is_tree(gold, n, depth),
        under(gold, n, x, a),
        under(gold, n, x, b),
    ensures
        under(gold, n, a, b) || under(gold, n, b, a),
    decreases depth(x),
{
    if x != a && x != b {
        let h = gold[x].0;
        if h != a {
            lemma_longer(gold, h, a, (n - 1) as nat, n);
        }
        if h != b {
            lemma_longer(gold, h, b, (n - 1) as nat, n);
        }
        lemma_comparable(gold, n, depth, h, a, b);
    }
}

/// A token from which tokens of two dependents of `t` descend is `t` or a
/// token from which `t` descends.
proof fn lemma_over_two_branches(
    gold: Map<nat, Attachment>,
    n: nat,
    depth: spec_fn(nat) -> nat,
    r: nat,
    t: nat,
    c: nat,
    e: nat,
    x: nat,
    y: nat,
    h: nat,
)
    requires
        is_tree(gold, n, depth),
        is_root(gold, n, r),
        1 <= t <= n,
        is_child(gold, c, t),
        is_child(gold, e, t),
        c != e,
        under(gold, n, x, c),
        under(gold, n, y, e),
        under(gold, n, x, h),
        under(gold, n, y, h),
    ensures
        under(gold, n, t, h),
{
    lemma_comparable(gold, n, depth, x, h, c);
    if under(gold, n, h, c) {
        assert(1 <= c <= n);
        lemma_under_under(gold, n, depth, r, y, h, c);
        lemma_one_ancestor(gold, n, depth, y, c, e);
    } else {
        assert(descends(gold, c, h, n));
        if gold[c].0 != h {
            lemma_longer(gold, t, h, (n - 1) as nat, n);
        }
    }
}

/// Two sequences of tokens under `t` that stand together, put one after the
/// other, stand together if a token that is over tokens of both is over `t`.
proof fn lemma_joined_together(
    gold: Map<nat, Attachment>,
    n: nat,
    depth: spec_fn(nat) -> nat,
    r: nat,
    t: nat,
    a: Seq<nat>,
    b: Seq<nat>,
)
    requires
        is_tree(gold, n, depth),
        is_root(gold, n, r),
        1 <= t <= n,
        together(gold, n, a),
        together(gold, n, b),
        a.no_duplicates(),
        b.no_duplicates(),
        forall|i: int| 0 <= i < a.len() ==> under(gold, n, #[trigger] a[i], t),
        forall|j: int| 0 <= j < b.len() ==> under(gold, n, #[trigger] b[j], t),
        forall|i: int, j: int| 0 <= i < a.len() && 0 <= j < b.len() ==> a[i] != b[j],
        forall|h: nat, i: int, j: int|
            #![trigger under(gold, n, a[i], h), under(gold, n, b[j], h)]
            0 <= i < a.len() && 0 <= j < b.len() && under(gold, n, a[i], h) && under(
                gold,
                n,
                b[j],
                h,
            ) ==> under(gold, n, t, h),
    ensures
        together(gold, n, a + b),
        (a + b).no_duplicates(),
        forall|x: nat| (a + b).contains(x) <==> a.contains(x) || b.contains(x),
        forall|i: int| 0 <= i < (a + b).len() ==> under(gold, n, #[trigger] (a + b)[i], t),
{
    let s = a + b;
    let m = a.len() as int;
    assert forall|x: nat| s.contains(x) <==> a.contains(x) || b.contains(x) by {
        if s.contains(x) {
            let i = choose|i: int| 0 <= i < s.len() && s[i] == x;
            if i < m {
                assert(a[i] == x);
            } else {
                assert(b[i - m] == x);
            }
        }
        if a.contains(x) {
            let i = choose|i: int| 0 <= i < a.len() && a[i] == x;
            assert(s[i] == x);
        }
        if b.contains(x) {
            let i = choose|i: int| 0 <= i < b.len() && b[i] == x;
            assert(s[m + i] == x);
        }
    }
    assert forall|i: int, j: int| 0 <= i < s.len() && 0 <= j < s.len() && i != j implies s[i]
        != s[j] by {
        if i < m && j < m {
            assert(s[i] == a[i] && s[j] == a[j]);
        } else if i >= m && j >= m {
            assert(s[i] == b[i - m] && s[j] == b[j - m]);
        } else if i < m {
            assert(s[i] == a[i] && s[j] == b[j - m]);
        } else {
            assert(s[i] == b[i - m] && s[j] == a[j]);
        }
    }
    assert forall|i: int| 0 <= i < s.len() implies under(gold, n, #[trigger] s[i], t) by {
        if i < m {
            assert(s[i] == a[i]);
        } else {
            assert(s[i] == b[i - m]);
        }
    }
    assert forall|h: nat, p: int, q: int, w: int|
        #![trigger under(gold, n, s[p], h), under(gold, n, s[w], h), s[q]]
        0 <= p < q < w < s.len() && under(gold, n, s[p], h) && under(gold, n, s[w], h) implies under(
        gold,
        n,
        s[q],
        h,
    ) by {
        if w < m {
            assert(s[p] == a[p] && s[q] == a[q] && s[w] == a[w]);
        } else if p >= m {
            assert(s[p] == b[p - m] && s[q] == b[q - m] && s[w] == b[w - m]);
        } else {
            assert(s[p] == a[p] && s[w] == b[w - m]);
            assert(under(gold, n, t, h));
            assert(under(gold, n, s[q], t));
            if h != t {
                lemma_deeper(gold, n, depth, t, h, n);
            }
            assert(1 <= h <= n) by {
                if h != t {
                    lemma_in_sentence(gold, n, depth, t, h);
                }
            }
            lemma_under_under(gold, n, depth, r, s[q], t, h);
        }
    }
}

/// A token from which a token descends is a token of the sentence.
proof fn lemma_in_sentence(
    gold: Map<nat, Attachment>,
    n: nat,
    depth: spec_fn(nat) -> nat,
    x: nat,
    h: nat,
)
    requires
        is_tree(gold, n, depth),
        descends(gold, x, h, n),
    ensures
        1 <= h <= n,
{
    lemma_head_in_sentence(gold, n, depth, x, h, n);
}

proof fn lemma_head_in_sentence(
    gold: Map<nat, Attachment>,
    n: nat,
    depth: spec_fn(nat) -> nat,
    x: nat,
    h: nat,
    steps: nat,
)
    requires
        is_tree(gold, n, depth),
        descends(gold, x, h, steps),
    ensures
        1 <= h <= n,
    decreases steps,
{
    if gold[x].0 != h {
        lemma_head_in_sentence(gold, n, depth, gold[x].0, h, (steps - 1) as nat);
    }
}

/// The traversal of the subtree of `t` lists `t` and its descendants, each
/// once, and the tokens of every subtree together, if it goes deep enough.
proof fn lemma_tree_yield(
    gold: Map<nat, Attachment>,
    n: nat,
    depth: spec_fn(nat) -> nat,
    r: nat,
    t: nat,
    fuel: nat,
    bound: nat,
)
    requires
        is_tree(gold, n, depth),
        is_root(gold, n, r),
        1 <= t <= n,
        bounded(depth, n, bound),
        bound < depth(t) + fuel,
    ensures
        subtree(gold, n, t, fuel).no_duplicates(),
        holds_subtree(subtree(gold, n, t, fuel), gold, n, t),
        together(gold, n, subtree(gold, n, t, fuel)),
    decreases fuel, 0nat,
{
    assert(level(depth, t) <= bound);
    assert(fuel > 0);
    let f = (fuel - 1) as nat;
    let left = subtrees(gold, n, t, 1, t, f);
    let right = subtrees(gold, n, t, t + 1, n + 1, f);
    lemma_trees_yield(gold, n, depth, r, t, 1, t, f, bound);
    lemma_trees_yield(gold, n, depth, r, t, t + 1, n + 1, f, bound);
    let middle = seq![t];
    assert(middle[0] == t);
    assert(together(gold, n, middle));
    assert forall|i: int| 0 <= i < left.len() implies under(gold, n, #[trigger] left[i], t)
        && left[i] != t by {
        assert(left.contains(left[i]));
        lemma_deeper(gold, n, depth, left[i], t, n);
    }
    assert forall|j: int| 0 <= j < right.len() implies under(gold, n, #[trigger] right[j], t)
        && right[j] != t by {
        assert(right.contains(right[j]));
        lemma_deeper(gold, n, depth, right[j], t, n);
    }
    lemma_joined_together(gold, n, depth, r, t, left, middle);
    let first = left + middle;
    assert forall|i: int, j: int| 0 <= i < first.len() && 0 <= j < right.len() implies first[i]
        != right[j] by {
        let y = right[j];
        assert(right.contains(y));
        if i < left.len() {
            let x = left[i];
            assert(first[i] == x);
            assert(left.contains(x));
        } else {
            assert(first[i] == middle[i - left.len()]);
        }
    }
    assert forall|h: nat, i: int, j: int|
        #![trigger under(gold, n, first[i], h), under(gold, n, right[j], h)]
        0 <= i < first.len() && 0 <= j < right.len() && under(gold, n, first[i], h) && under(
            gold,
            n,
            right[j],
            h,
        ) implies under(gold, n, t, h) by {
        let y = right[j];
        assert(right.contains(y));
        if i < left.len() {
            let x = left[i];
            assert(first[i] == x);
            assert(left.contains(x));
            lemma_branch(gold, n, depth, x, t, n);
            lemma_branch(gold, n, depth, y, t, n);
            let c = branch(gold, x, t, n);
            let e = branch(gold, y, t, n);
            assert(under(gold, n, x, c)) by {
                if x != c {
                    lemma_longer(gold, x, c, n, n);
                }
            }
            assert(under(gold, n, y, e)) by {
                if y != e {
                    lemma_longer(gold, y, e, n, n);
                }
            }
            lemma_over_two_branches(gold, n, depth, r, t, c, e, x, y, h);
        } else {
            assert(first[i] == middle[i - left.len()]);
        }
    }
    lemma_joined_together(gold, n, depth, r, t, first, right);
    let all = first + right;
    assert(subtree(gold, n, t, fuel) == all);
    assert forall|x: nat| #[trigger] all.contains(x) <==> 1 <= x <= n && under(gold, n, x, t) by {
        assert(all.contains(x) <==> first.contains(x) || right.contains(x));
        assert(first.contains(x) <==> left.contains(x) || middle.contains(x));
        assert(middle.contains(x) <==> x == t) by {
            if x == t {
                assert(middle[0] == x);
            }
        }
        if 1 <= x <= n && descends(gold, x, t, n) {
            lemma_branch(gold, n, depth, x, t, n);
            let c = branch(gold, x, t, n);
            assert(depth(c) == depth(t) + 1);
            if c < t {
                assert(left.contains(x));
            } else {
                assert(right.contains(x));
            }
        }
        if left.contains(x) {
            assert(descends(gold, x, t, n));
        }
        if right.contains(x) {
            assert(descends(gold, x, t, n));
        }
    }
}

/// The traversal of the dependents of `h` among `from..to` lists the
/// descendants of `h` that descend through them, each once, and the tokens
/// of every subtree together, if it goes deep enough.
proof fn lemma_trees_yield(
    gold: Map<nat, Attachment>,
    n: nat,
    depth: spec_fn(nat) -> nat,
    r: nat,
    h: nat,
    from: nat,
    to: nat,
    fuel: nat,
    bound: nat,
)
    requires
        is_tree(gold, n, depth),
        is_root(gold, n, r),
        1 <= h <= n,
        1 <= from,
        to <= n + 1,
        bounded(depth, n, bound),
        bound < depth(h) + 1 + fuel,
    ensures
        subtrees(gold, n, h, from, to, fuel).no_duplicates(),
        holds_branches(subtrees(gold, n, h, from, to, fuel), gold, n, h, from, to),
        together(gold, n, subtrees(gold, n, h, from, to, fuel)),
    decreases fuel, 1 + to - from,
{
    let all = subtrees(gold, n, h, from, to, fuel);
    if from < to {
        let next = (from + 1) as nat;
        let rest = subtrees(gold, n, h, next, to, fuel);
        lemma_trees_yield(gold, n, depth, r, h, next, to, fuel, bound);
        let part = if is_child(gold, from, h) {
            subtree(gold, n, from, fuel)
        } else {
            Seq::<nat>::empty()
        };
        if is_child(gold, from, h) {
            lemma_tree_yield(gold, n, depth, r, from, fuel, bound);
        }
        assert forall|i: int| 0 <= i < part.len() implies under(gold, n, #[trigger] part[i], h) by {
            let x = part[i];
            assert(part.contains(x));
            lemma_branch_is(gold, n, depth, r, x, from, h);
        }
        assert forall|j: int| 0 <= j < rest.len() implies under(gold, n, #[trigger] rest[j], h) by {
            assert(rest.contains(rest[j]));
        }
        assert forall|i: int, j: int| 0 <= i < part.len() && 0 <= j < rest.len() implies part[i]
            != rest[j] by {
            let x = part[i];
            let y = rest[j];
            assert(part.contains(x));
            assert(rest.contains(y));
            lemma_branch_is(gold, n, depth, r, x, from, h);
        }
        assert forall|k: nat, i: int, j: int|
            #![trigger under(gold, n, part[i], k), under(gold, n, rest[j], k)]
            0 <= i < part.len() && 0 <= j < rest.len() && under(gold, n, part[i], k) && under(
                gold,
                n,
                rest[j],
                k,
            ) implies under(gold, n, h, k) by {
            let x = part[i];
            let y = rest[j];
            assert(part.contains(x));
            assert(rest.contains(y));
            lemma_branch(gold, n, depth, y, h, n);
            let e = branch(gold, y, h, n);
            assert(under(gold, n, y, e)) by {
                if y != e {
                    lemma_longer(gold, y, e, n, n);
                }
            }
            lemma_over_two_branches(gold, n, depth, r, h, from, e, x, y, k);
        }
        lemma_joined_together(gold, n, depth, r, h, part, rest);
        let joined = part + rest;
        assert(all == joined);
        assert forall|x: nat| #[trigger]
            joined.contains(x) <==> 1 <= x <= n && descends(gold, x, h, n) && from <= branch(
                gold,
                x,
                h,
                n,
            ) < to by {
            assert(joined.contains(x) <==> part.contains(x) || rest.contains(x));
            if part.contains(x) {
                assert(under(gold, n, x, from));
                lemma_branch_is(gold, n, depth, r, x, from, h);
            }
            if rest.contains(x) {
                assert(descends(gold, x, h, n));
            }
            if 1 <= x <= n && descends(gold, x, h, n) && from <= branch(gold, x, h, n) < to {
                lemma_branch(gold, n, depth, x, h, n);
                if branch(gold, x, h, n) == from {
                    assert(under(gold, n, x, from));
                    assert(part.contains(x));
                } else {
                    assert(rest.contains(x));
                }
            }
        }
    } else {
        assert forall|x: nat| !(#[trigger] all.contains(x)) by {}
    }
}

/// In a sequence that holds no token twice, a token has the place at which
/// it stands.
pub(crate) proof fn lemma_rank_of_place(s: Seq<nat>, i: int)
    requires
        s.no_duplicates(),
        0 <= i < s.len(),
    ensures
        rank(s, s[i]) == i,
    decreases s.len(),
{
    if i > 0 {
        let rest = s.drop_first();
        assert(s[0] != s[i]);
        assert(rest[i - 1] == s[i]);
        assert forall|a: int, b: int| 0 <= a < rest.len() && 0 <= b < rest.len() && a
            != b implies rest[a] != rest[b] by {
            assert(rest[a] == s[a + 1] && rest[b] == s[b + 1]);
        }
        lemma_rank_of_place(rest, i - 1);
    }
}

/// Whether `order` holds each token of `1..=n` once, and the tokens of
/// every subtree of `gold` together.
pub open spec fn orderly(gold: Map<nat, Attachment>, n: nat, order: Seq<nat>) -> bool {
    &&& order.no_duplicates()
    &&& forall|x: nat| 1 <= x <= n ==> #[trigger] order.contains(x)
    &&& together(gold, n, order)
}

/// The projective order of a tree holds each token once, and the tokens of
/// every subtree together.
pub proof fn lemma_projective_order_is_orderly(
    gold: Map<nat, Attachment>,
    n: nat,
    depth: spec_fn(nat) -> nat,
)
    requires
        is_tree(gold, n, depth),
        n >= 1,
    ensures
        orderly(gold, n, projective_order(gold, n)),
{
    let r = lemma_root_exists(gold, n, depth, 1);
    lemma_forest(gold, n, depth, r, 1);
    let bound = (depth(r) + n - 1) as nat;
    assert forall|x: nat| 1 <= x <= n implies #[trigger] level(depth, x) <= bound by {
        lemma_all_under_root(gold, n, depth, x, r);
    }
    lemma_tree_yield(gold, n, depth, r, r, n, bound);
    let order = projective_order(gold, n);
    assert forall|x: nat| 1 <= x <= n implies #[trigger] order.contains(x) by {
        lemma_all_under_root(gold, n, depth, x, r);
    }
}

/// In an orderly order, a token whose place is between those of a token and
/// its head descends from that head.
pub proof fn lemma_between_in_order(
    gold: Map<nat, Attachment>,
    n: nat,
    depth: spec_fn(nat) -> nat,
    order: Seq<nat>,
    m: nat,
    k: nat,
)
    requires
        is_tree(gold, n, depth),
        orderly(gold, n, order),
        gold.dom().contains(m),
        1 <= k <= n,
        rank(order, m) < rank(order, k) < rank(order, gold[m].0) || rank(order, gold[m].0) < rank(
            order,
            k,
        ) < rank(order, m),
    ensures
        descends(gold, k, gold[m].0, n),
{
    let h = gold[m].0;
    assert(1 <= m <= n && 1 <= h <= n);
    assert(order.contains(m) && order.contains(k) && order.contains(h));
    let a = choose|a: int| 0 <= a < order.len() && order[a] == m;
    let b = choose|b: int| 0 <= b < order.len() && order[b] == k;
    let c = choose|c: int| 0 <= c < order.len() && order[c] == h;
    lemma_rank_of_place(order, a);
    lemma_rank_of_place(order, b);
    lemma_rank_of_place(order, c);
    assert(descends(gold, m, h, n));
    assert(under(gold, n, order[a], h));
    assert(under(gold, n, order[c], h));
    if a < b {
        assert(a < b < c);
        assert(under(gold, n, order[b], h));
    } else {
        assert(c < b < a);
        assert(under(gold, n, order[b], h));
    }
    assert(k != h);
}

/// The number of tokens of `s` whose place in `order` is after that of `x`.
pub open spec fn later(order: Seq<nat>, s: Seq<nat>, x: nat) -> nat
    decreases s.len(),
{
    if s.len() == 0 {
        0
    } else {
        later(order, s.drop_last(), x) + if rank(order, x) < rank(order, s.last()) {
            1nat
        } else {
            0nat
        }
    }
}

/// The number of pairs of tokens of `s` that stand the other way round
/// than in `order`.
pub open spec fn disorder(order: Seq<nat>, s: Seq<nat>) -> nat
    decreases s.len(),
{
    if s.len() == 0 {
        0
    } else {
        disorder(order, s.drop_last()) + later(order, s.drop_last(), s.last())
    }
}

/// `s` with the tokens at `i` and `i + 1` in each other's places.
pub open spec fn exchanged(s: Seq<nat>, i: int) -> Seq<nat> {
    s.update(i, s[i + 1]).update(i + 1, s[i])
}

proof fn lemma_later_bound(order: Seq<nat>, s: Seq<nat>, x: nat)
    ensures
        later(order, s, x) <= s.len(),
    decreases s.len(),
{
    if s.len() > 0 {
        lemma_later_bound(order, s.drop_last(), x);
    }
}

proof fn lemma_later_remove(order: Seq<nat>, s: Seq<nat>, i: int, x: nat)
    requires
        0 <= i < s.len(),
    ensures
        later(order, s.remove(i), x) <= later(order, s, x),
    decreases s.len(),
{
    if i == s.len() - 1 {
        assert(s.remove(i) =~= s.drop_last());
    } else {
        let t = s.remove(i);
        assert(t.drop_last() =~= s.drop_last().remove(i));
        assert(t.last() == s.last());
        lemma_later_remove(order, s.drop_last(), i, x);
    }
}

proof fn lemma_later_exchanged(order: Seq<nat>, s: Seq<nat>, i: int, x: nat)
    requires
        0 <= i,
        i + 1 < s.len(),
    ensures
        later(order, exchanged(s, i), x) == later(order, s, x),
    decreases s.len(),
{
    let t = exchanged(s, i);
    if i + 1 == s.len() - 1 {
        let p = s.drop_last().drop_last();
        assert(t.drop_last().drop_last() =~= p);
        assert(t.last() == s[i]);
        assert(t.drop_last().last() == s[i + 1]);
        assert(s.drop_last().last() == s[i]);
        assert(s.last() == s[i + 1]);
        let a: nat = if rank(order, x) < rank(order, s[i]) { 1 } else { 0 };
        let b: nat = if rank(order, x) < rank(order, s[i + 1]) { 1 } else { 0 };
        assert(later(order, s.drop_last(), x) == later(order, p, x) + a);
        assert(later(order, s, x) == later(order, s.drop_last(), x) + b);
        assert(later(order, t.drop_last(), x) == later(order, p, x) + b);
        assert(later(order, t, x) == later(order, t.drop_last(), x) + a);
    } else {
        assert(t.drop_last() =~= exchanged(s.drop_last(), i));
        assert(t.last() == s.last());
        lemma_later_exchanged(order, s.drop_last(), i, x);
    }
}

/// Taking a token away brings no disorder.
proof fn lemma_disorder_remove(order: Seq<nat>, s: Seq<nat>, i: int)
    requires
        0 <= i < s.len(),
    ensures
        disorder(order, s.remove(i)) <= disorder(order, s),
    decreases s.len(),
{
    if i == s.len() - 1 {
        assert(s.remove(i) =~= s.drop_last());
    } else {
        let t = s.remove(i);
        assert(t.drop_last() =~= s.drop_last().remove(i));
        assert(t.last() == s.last());
        lemma_disorder_remove(order, s.drop_last(), i);
        lemma_later_remove(order, s.drop_last(), i, s.last());
    }
}

/// Two neighbours that stand the other way round than in `order` are one
/// pair less in disorder after they have changed places.
proof fn lemma_disorder_exchanged(order: Seq<nat>, s: Seq<nat>, i: int)
    requires
        0 <= i,
        i + 1 < s.len(),
        rank(order, s[i + 1]) < rank(order, s[i]),
    ensures
        disorder(order, exchanged(s, i)) + 1 == disorder(order, s),
    decreases s.len(),
{
    let t = exchanged(s, i);
    if i + 1 == s.len() - 1 {
        let p = s.drop_last().drop_last();
        assert(t.drop_last().drop_last() =~= p);
        assert(t.last() == s[i]);
        assert(t.drop_last().last() == s[i + 1]);
        assert(s.drop_last().last() == s[i]);
        assert(s.last() == s[i + 1]);
        assert(later(order, s.drop_last(), s.last()) == later(order, p, s[i + 1]) + 1);
        assert(later(order, t.drop_last(), t.last()) == later(order, p, s[i]));
        assert(disorder(order, s.drop_last()) == disorder(order, p) + later(order, p, s[i]));
        assert(disorder(order, t.drop_last()) == disorder(order, p) + later(
            order,
            p,
            s[i + 1],
        ));
    } else {
        assert(t.drop_last() =~= exchanged(s.drop_last(), i));
        assert(t.last() == s.last());
        lemma_disorder_exchanged(order, s.drop_last(), i);
        lemma_later_exchanged(order, s.drop_last(), i, s.last());
    }
}

/// No more pairs are in disorder than there are pairs.
proof fn lemma_disorder_bound(order: Seq<nat>, s: Seq<nat>)
    ensures
        2 * disorder(order, s) <= s.len() * (s.len() - 1),
    decreases s.len(),
{
    if s.len() > 0 {
        let p = s.drop_last();
        lemma_disorder_bound(order, p);
        lemma_later_bound(order, p, s.last());
        let m = p.len() as int;
        assert(m * (m - 1) + 2 * m == (m + 1) * m) by (nonlinear_arith);
    } else {
        assert(0 * (0 - 1) == 0) by (nonlinear_arith);
    }
}

/// Two tokens of the sentence have two places in an orderly order.
proof fn lemma_two_places(gold: Map<nat, Attachment>, n: nat, order: Seq<nat>, x: nat, y: nat)
    requires
        orderly(gold, n, order),
        1 <= x <= n,
        1 <= y <= n,
        x != y,
    ensures
        rank(order, x) != rank(order, y),
{
    assert(order.contains(x) && order.contains(y));
    let a = choose|a: int| 0 <= a < order.len() && order[a] == x;
    let b = choose|b: int| 0 <= b < order.len() && order[b] == y;
    lemma_rank_of_place(order, a);
    lemma_rank_of_place(order, b);
}

/// What holds of the configurations through which the oracle of stack-swap
/// passes on its way to a tree. The arcs are arcs of the tree and every
/// attached token has all its dependents; two tokens in work that stand the
/// other way round than in the order stand in sentence order; the tokens
/// below the top of the stack are in the order; below the top no two
/// neighbours wait only for each other; and the swaps that were made and
/// the pairs that are still in disorder are no more than the swaps allowed.
pub open spec fn on_swap_course(
    c: Configuration,
    gold: Map<nat, Attachment>,
    n: nat,
    order: Seq<nat>,
) -> bool {
    &&& c.tokens == n
    &&& forall|m: nat| #[trigger]
        c.arcs.dom().contains(m) ==> gold.dom().contains(m) && c.arcs[m] == gold[m]
    &&& forall|m: nat| #[trigger] c.arcs.dom().contains(m) ==> resolved(c, gold, m)
    &&& sentence_where_disorder(order, c.live())
    &&& forall|i: int, j: int|
        0 <= i < j && j + 1 < c.stack.len() ==> rank(order, #[trigger] c.stack[i]) < rank(
            order,
            #[trigger] c.stack[j],
        )
    &&& forall|i: int|
        0 <= i && i + 2 < c.stack.len() ==> !waits_only(c, gold, #[trigger] c.stack[i], c.stack[i + 1])
            && !waits_only(c, gold, c.stack[i + 1], c.stack[i])
    &&& c.swaps + disorder(order, c.live()) <= swap_limit(n)
}

/// Whether two tokens of `s` that stand the other way round than in `order`
/// stand in sentence order.
pub open spec fn sentence_where_disorder(order: Seq<nat>, s: Seq<nat>) -> bool {
    forall|p: int, q: int|
        0 <= p < q < s.len() && rank(order, #[trigger] s[q]) < rank(order, #[trigger] s[p])
            ==> s[p] < s[q]
}

proof fn lemma_sentence_where_disorder_remove(order: Seq<nat>, s: Seq<nat>, i: int)
    requires
        sentence_where_disorder(order, s),
        0 <= i < s.len(),
    ensures
        sentence_where_disorder(order, s.remove(i)),
{
    let t = s.remove(i);
    assert forall|p: int, q: int|
        0 <= p < q < t.len() && rank(order, #[trigger] t[q]) < rank(
            order,
            #[trigger] t[p],
        ) implies t[p] < t[q] by {
        let p0 = if p < i { p } else { p + 1 };
        let q0 = if q < i { q } else { q + 1 };
        assert(t[p] == s[p0] && t[q] == s[q0]);
    }
}

/// The top pair of the stack is in the order where the oracle does not
/// swap, and a swap is legal where it is not.
proof fn lemma_top_pair(
    c: Configuration,
    gold: Map<nat, Attachment>,
    n: nat,
    order: Seq<nat>,
)
    requires
        orderly(gold, n, order),
        c.consistent(SystemKind::StackSwap),
        on_swap_course(c, gold, n, order),
        c.stack.len() >= 2,
    ensures
        rank(order, c.top()) != rank(order, c.second()),
        rank(order, c.top()) < rank(order, c.second()) ==> legal(
            SystemKind::StackSwap,
            c,
            Move::Swap,
        ),
{
    let k = c.stack.len() as int;
    let live = c.live();
    assert(live[k - 2] == c.stack[k - 2] && live[k - 1] == c.stack[k - 1]);
    assert(live[k - 2] != live[k - 1]);
    lemma_two_places(gold, n, order, c.top(), c.second());
    if rank(order, c.top()) < rank(order, c.second()) {
        assert(rank(order, live[k - 1]) < rank(order, live[k - 2]));
        assert(live[k - 2] < live[k - 1]);
        lemma_disorder_exchanged(order, live, k - 2);
    }
}

proof fn lemma_swap_shift_on_course(
    c: Configuration,
    gold: Map<nat, Attachment>,
    n: nat,
    order: Seq<nat>,
)
    requires
        orderly(gold, n, order),
        c.consistent(SystemKind::StackSwap),
        on_swap_course(c, gold, n, order),
        oracle(SystemKind::StackSwap, c, gold, n, order) == Some(Move::Shift),
    ensures
        on_swap_course(step(SystemKind::StackSwap, c, Move::Shift), gold, n, order),
{
    let kind = SystemKind::StackSwap;
    let d = step(kind, c, Move::Shift);
    let k = c.stack.len() as int;
    assert(d.live() =~= c.live());
    assert(d.arcs == c.arcs);
    assert forall|x: nat| resolved(d, gold, x) == resolved(c, gold, x) by {}
    if k >= 2 {
        lemma_top_pair(c, gold, n, order);
        assert(rank(order, c.second()) < rank(order, c.top()));
    }
    assert forall|i: int, j: int| 0 <= i < j && j + 1 < d.stack.len() implies rank(
        order,
        #[trigger] d.stack[i],
    ) < rank(order, #[trigger] d.stack[j]) by {
        assert(d.stack[i] == c.stack[i] && d.stack[j] == c.stack[j]);
        if j == k - 1 {
            if i < k - 2 {
                assert(rank(order, c.stack[i]) < rank(order, c.stack[k - 2]));
            }
        }
    }
    assert forall|i: int| 0 <= i && i + 2 < d.stack.len() implies !waits_only(
        d,
        gold,
        #[trigger] d.stack[i],
        d.stack[i + 1],
    ) && !waits_only(d, gold, d.stack[i + 1], d.stack[i]) by {
        assert(d.stack[i] == c.stack[i]);
        assert(d.stack[i + 1] == c.stack[i + 1]);
        if i + 2 == k {
            assert(!c.arcs.dom().contains(c.stack[k - 1]));
            assert(!c.arcs.dom().contains(c.stack[k - 2]));
        } else {
            assert(!waits_only(c, gold, c.stack[i], c.stack[i + 1]));
        }
    }
}

/// Attaching the token `gone` of the two topmost to the other, `head`,
/// keeps the oracle of stack-swap on course.
proof fn lemma_swap_arc_on_course(
    c: Configuration,
    d: Configuration,
    gold: Map<nat, Attachment>,
    n: nat,
    order: Seq<nat>,
    at: int,
    gone: nat,
    head: nat,
)
    requires
        c.consistent(SystemKind::StackSwap),
        on_swap_course(c, gold, n, order),
        c.stack.len() >= 2,
        (at == c.stack.len() - 2 && gone == c.second() && head == c.top()) || (at
            == c.stack.len() - 1 && gone == c.top() && head == c.second()),
        due(c, gold, gone, head),
        d.tokens == c.tokens,
        d.swaps == c.swaps,
        d.buffer == c.buffer,
        d.arcs == c.arcs.insert(gone, gold[gone]),
        d.stack == c.stack.remove(at),
    ensures
        on_swap_course(d, gold, n, order),
{
    let k = c.stack.len() as int;
    assert(d.live() =~= c.live().remove(at));
    lemma_sentence_where_disorder_remove(order, c.live(), at);
    lemma_disorder_remove(order, c.live(), at);
    assert(c.live()[k - 2] == c.stack[k - 2] && c.live()[k - 1] == c.stack[k - 1]);
    assert(c.live()[k - 2] != c.live()[k - 1]);
    assert forall|x: nat| #[trigger] d.arcs.dom().contains(x) implies resolved(d, gold, x) by {
        lemma_resolved_after(c, d, gold, gone, head, x);
    }
    assert forall|i: int, j: int| 0 <= i < j && j + 1 < d.stack.len() implies rank(
        order,
        #[trigger] d.stack[i],
    ) < rank(order, #[trigger] d.stack[j]) by {
        assert(d.stack[i] == c.stack[i] && d.stack[j] == c.stack[j]);
    }
    assert forall|i: int| 0 <= i && i + 2 < d.stack.len() implies !waits_only(
        d,
        gold,
        #[trigger] d.stack[i],
        d.stack[i + 1],
    ) && !waits_only(d, gold, d.stack[i + 1], d.stack[i]) by {
        assert(d.stack[i] == c.stack[i]);
        assert(d.stack[i + 1] == c.stack[i + 1]);
        assert(!waits_only(c, gold, c.stack[i], c.stack[i + 1]));
        assert(!waits_only(c, gold, c.stack[i + 1], c.stack[i]));
        assert(c.live()[i] == c.stack[i] && c.live()[i + 1] == c.stack[i + 1]);
        assert(c.live()[i] != c.live()[k - 1] && c.live()[i] != c.live()[k - 2]);
        assert(c.live()[i + 1] != c.live()[k - 1] && c.live()[i + 1] != c.live()[k - 2]);
        lemma_resolved_after(c, d, gold, gone, head, c.stack[i]);
        lemma_resolved_after(c, d, gold, gone, head, c.stack[i + 1]);
    }
}

proof fn lemma_swap_swap_on_course(
    c: Configuration,
    gold: Map<nat, Attachment>,
    n: nat,
    order: Seq<nat>,
)
    requires
        c.consistent(SystemKind::StackSwap),
        on_swap_course(c, gold, n, order),
        legal(SystemKind::StackSwap, c, Move::Swap),
        rank(order, c.top()) < rank(order, c.second()),
    ensures
        on_swap_course(step(SystemKind::StackSwap, c, Move::Swap), gold, n, order),
{
    let kind = SystemKind::StackSwap;
    let d = step(kind, c, Move::Swap);
    let k = c.stack.len() as int;
    let live = c.live();
    assert(live[k - 2] == c.stack[k - 2] && live[k - 1] == c.stack[k - 1]);
    assert(d.live() =~= exchanged(live, k - 2));
    lemma_disorder_exchanged(order, live, k - 2);
    assert(d.arcs == c.arcs);
    assert forall|x: nat| resolved(d, gold, x) == resolved(c, gold, x) by {}
    let t = d.live();
    assert forall|p: int, q: int|
        0 <= p < q < t.len() && rank(order, #[trigger] t[q]) < rank(
            order,
            #[trigger] t[p],
        ) implies t[p] < t[q] by {
        let p0 = if p == k - 2 { k - 1 } else if p == k - 1 { k - 2 } else { p };
        let q0 = if q == k - 2 { k - 1 } else if q == k - 1 { k - 2 } else { q };
        assert(t[p] == live[p0] && t[q] == live[q0]);
        if p == k - 2 && q == k - 1 {
        } else {
            assert(p0 < q0);
        }
    }
    assert forall|i: int, j: int| 0 <= i < j && j + 1 < d.stack.len() implies rank(
        order,
        #[trigger] d.stack[i],
    ) < rank(order, #[trigger] d.stack[j]) by {
        assert(d.stack[i] == c.stack[i] && d.stack[j] == c.stack[j]);
    }
    assert forall|i: int| 0 <= i && i + 2 < d.stack.len() implies !waits_only(
        d,
        gold,
        #[trigger] d.stack[i],
        d.stack[i + 1],
    ) && !waits_only(d, gold, d.stack[i + 1], d.stack[i]) by {
        assert(d.stack[i] == c.stack[i]);
        assert(d.stack[i + 1] == c.stack[i + 1]);
        assert(!waits_only(c, gold, c.stack[i], c.stack[i + 1]));
    }
}

/// The oracle of stack-swap stays on course.
proof fn lemma_stays_on_swap_course(
    c: Configuration,
    gold: Map<nat, Attachment>,
    n: nat,
    order: Seq<nat>,
)
    requires
        orderly(gold, n, order),
        c.consistent(SystemKind::StackSwap),
        on_swap_course(c, gold, n, order),
        oracle(SystemKind::StackSwap, c, gold, n, order) is Some,
    ensures
        on_swap_course(
            step(SystemKind::StackSwap, c, oracle(SystemKind::StackSwap, c, gold, n, order)->0),
            gold,
            n,
            order,
        ),
{
    let kind = SystemKind::StackSwap;
    let m = oracle(kind, c, gold, n, order)->0;
    let d = step(kind, c, m);
    let k = c.stack.len() as int;
    match m {
        Move::Shift => {
            lemma_swap_shift_on_course(c, gold, n, order);
        },
        Move::LeftArc(_) => {
            lemma_swap_arc_on_course(c, d, gold, n, order, k - 2, c.second(), c.top());
        },
        Move::RightArc(_) => {
            assert(d.stack =~= c.stack.remove(k - 1));
            lemma_swap_arc_on_course(c, d, gold, n, order, k - 1, c.top(), c.second());
        },
        Move::Reduce => {},
        Move::Swap => {
            lemma_swap_swap_on_course(c, gold, n, order);
        },
    }
}

/// With the buffer empty, the head of a stack token is on the stack too.
proof fn lemma_swap_head_on_stack(
    c: Configuration,
    gold: Map<nat, Attachment>,
    n: nat,
    order: Seq<nat>,
    depth: spec_fn(nat) -> nat,
    i: int,
) -> (j: int)
    requires
        is_tree(gold, n, depth),
        c.consistent(SystemKind::StackSwap),
        on_swap_course(c, gold, n, order),
        c.buffer.len() == 0,
        0 <= i < c.stack.len(),
        gold.dom().contains(c.stack[i]),
    ensures
        0 <= j < c.stack.len(),
        j != i,
        c.stack[j] == gold[c.stack[i]].0,
{
    let x = c.stack[i];
    let h = gold[x].0;
    assert(c.live() =~= c.stack);
    assert(!c.arcs.dom().contains(x));
    if c.arcs.dom().contains(h) {
        assert(resolved(c, gold, h));
        assert(false);
    }
    assert(c.live().contains(h));
    let j = choose|j: int| 0 <= j < c.stack.len() && c.stack[j] == h;
    assert(depth(x) == depth(h) + 1);
    j
}

/// On course to a tree, the oracle of stack-swap knows a transition until
/// the parse has ended.
proof fn lemma_swap_never_stuck(
    c: Configuration,
    gold: Map<nat, Attachment>,
    n: nat,
    order: Seq<nat>,
    depth: spec_fn(nat) -> nat,
)
    requires
        is_tree(gold, n, depth),
        orderly(gold, n, order),
        c.consistent(SystemKind::StackSwap),
        on_swap_course(c, gold, n, order),
        !terminal(SystemKind::StackSwap, c),
    ensures
        oracle(SystemKind::StackSwap, c, gold, n, order) is Some,
{
    let kind = SystemKind::StackSwap;
    if c.buffer.len() == 0 && oracle(kind, c, gold, n, order) is None {
        let k = c.stack.len() as int;
        assert(k >= 2);
        assert(c.live() =~= c.stack);
        lemma_top_pair(c, gold, n, order);
        assert(rank(order, c.second()) < rank(order, c.top()));
        // The whole stack is in the order.
        assert forall|i: int, j: int| 0 <= i < j < k implies rank(order, c.stack[i]) < rank(
            order,
            c.stack[j],
        ) by {
            if j == k - 1 && i < k - 2 {
                assert(rank(order, c.stack[i]) < rank(order, c.stack[k - 2]));
            }
        }
        let l = deepest(c.stack, depth, k as nat);
        lemma_deepest(c.stack, depth, k as nat);
        let x = c.stack[l];
        if !gold.dom().contains(x) {
            let o = if l == 0 { 1int } else { 0int };
            let y = c.stack[o];
            assert(c.live()[o] != c.live()[l]);
            assert(1 <= x <= n && 1 <= y <= n);
            assert(gold.dom().contains(y));
            lemma_root_is_highest(gold, n, depth, y, x);
            assert(depth(y) <= depth(x));
            assert(false);
        }
        let h = lemma_swap_head_on_stack(c, gold, n, order, depth, l);
        let head = c.stack[h];
        let m = if h < l { h + 1 } else { h - 1 };
        let y = c.stack[m];
        assert(is_child(gold, y, head)) by {
            if m != l {
                if h < l {
                    assert(rank(order, c.stack[h]) < rank(order, c.stack[m]));
                    assert(rank(order, c.stack[m]) < rank(order, c.stack[l]));
                } else {
                    assert(rank(order, c.stack[l]) < rank(order, c.stack[m]));
                    assert(rank(order, c.stack[m]) < rank(order, c.stack[h]));
                }
                lemma_between_in_order(gold, n, depth, order, x, y);
                lemma_descendant_depth(gold, n, depth, y, head, n);
                assert(depth(y) <= depth(x));
            }
        }
        assert(depth(y) == depth(x));
        assert(resolved(c, gold, y)) by {
            assert forall|e: nat| #[trigger] gold.dom().contains(e) && gold[e].0 == y implies c.arcs.dom().contains(
                e,
            ) by {
                if !c.arcs.dom().contains(e) {
                    assert(c.live().contains(e));
                    let q = choose|q: int| 0 <= q < c.stack.len() && c.stack[q] == e;
                    assert(depth(c.stack[q]) <= depth(x));
                    assert(depth(e) == depth(y) + 1);
                }
            }
        }
        assert(waits_only(c, gold, y, head));
        let low = if h < l { h } else { m };
        assert(!c.arcs.dom().contains(c.stack[low]));
        assert(!c.arcs.dom().contains(c.stack[low + 1]));
        if low + 2 < k {
            assert(!waits_only(c, gold, c.stack[low], c.stack[low + 1]) && !waits_only(
                c,
                gold,
                c.stack[low + 1],
                c.stack[low],
            ));
            assert(false);
        } else {
            assert(c.stack[low] == c.second());
            assert(c.stack[low + 1] == c.top());
            assert(false);
        }
    }
}

/// On course, a parse that has ended has built the tree.
proof fn lemma_swap_ends_with_the_tree(
    c: Configuration,
    gold: Map<nat, Attachment>,
    n: nat,
    order: Seq<nat>,
    depth: spec_fn(nat) -> nat,
)
    requires
        is_tree(gold, n, depth),
        c.consistent(SystemKind::StackSwap),
        on_swap_course(c, gold, n, order),
        terminal(SystemKind::StackSwap, c),
    ensures
        c.arcs == gold,
{
    assert(c.live() =~= c.stack);
    assert forall|m: nat| gold.dom().contains(m) implies c.arcs.dom().contains(m) by {
        if !c.arcs.dom().contains(m) {
            assert(c.live().contains(m));
            assert(c.stack.len() == 1 && c.stack[0] == m);
            let j = lemma_swap_head_on_stack(c, gold, n, order, depth, 0);
        }
    }
    assert(c.arcs =~= gold);
}

proof fn lemma_swap_course_ends_with_the_tree(
    c: Configuration,
    gold: Map<nat, Attachment>,
    n: nat,
    order: Seq<nat>,
    depth: spec_fn(nat) -> nat,
    fuel: nat,
)
    requires
        is_tree(gold, n, depth),
        orderly(gold, n, order),
        c.consistent(SystemKind::StackSwap),
        on_swap_course(c, gold, n, order),
        fuel >= c.potential(),
    ensures
        terminal(SystemKind::StackSwap, oracle_end(SystemKind::StackSwap, c, gold, n, order, fuel)),
        oracle_end(SystemKind::StackSwap, c, gold, n, order, fuel).arcs == gold,
        oracle_end(SystemKind::StackSwap, c, gold, n, order, fuel).tokens == n,
    decreases fuel,
{
    let kind = SystemKind::StackSwap;
    if terminal(kind, c) {
        lemma_swap_ends_with_the_tree(c, gold, n, order, depth);
    } else {
        lemma_swap_never_stuck(c, gold, n, order, depth);
        let m = oracle(kind, c, gold, n, order)->0;
        lemma_oracle_legal(kind, c, gold, n, order);
        lemma_step_consistent(kind, c, m);
        lemma_stays_on_swap_course(c, gold, n, order);
        assert(fuel > 0);
        lemma_swap_course_ends_with_the_tree(step(kind, c, m), gold, n, order, depth, (fuel - 1) as nat);
    }
}

/// The static oracle of stack-swap builds every tree, whether its arcs
/// cross or not: replayed from the initial configuration, by the projective
/// order of the tree, its transitions end the parse with exactly the arcs
/// of the tree.
pub proof fn lemma_swap_oracle_builds_trees(
    gold: Map<nat, Attachment>,
    n: nat,
    depth: spec_fn(nat) -> nat,
)
    requires
        is_tree(gold, n, depth),
    ensures
        oracle_builds(SystemKind::StackSwap, initial(n), gold, n, projective_order(gold, n)),
{
    let kind = SystemKind::StackSwap;
    let order = projective_order(gold, n);
    let c = initial(n);
    lemma_initial_consistent(kind, n);
    if n >= 1 {
        lemma_projective_order_is_orderly(gold, n, depth);
        assert(c.live() =~= c.buffer);
        lemma_disorder_bound(order, c.live());
        assert(disorder(order, c.live()) <= swap_limit(n)) by (nonlinear_arith)
            requires
                2 * disorder(order, c.live()) <= n * (n - 1),
                swap_limit(n) == (n * (n - 1) / 2) as nat,
        ;
        assert(on_swap_course(c, gold, n, order));
        lemma_swap_course_ends_with_the_tree(c, gold, n, order, depth, c.potential());
    } else {
        assert(terminal(kind, c));
        assert(c.arcs =~= gold);
    }
}

/// Whether `gold` is a tree over the tokens `1..=n`, with crossing arcs or
/// without.
pub open spec fn is_a_tree(gold: Map<nat, Attachment>, n: nat) -> bool {
    exists|depth: spec_fn(nat) -> nat| #[trigger] is_tree(gold, n, depth)
}

/// The static oracle of stack-swap builds the gold tree that it is given:
/// `oracle_transitions` then finds the transitions.
pub proof fn lemma_swap_gold_tree_is_built(gold: GoldTree)
    requires
        gold.wf(),
        is_a_tree(gold@, gold.size()),
    ensures
        oracle_builds(
            SystemKind::StackSwap,
            initial(gold.size()),
            gold@,
            gold.size(),
            gold.order(),
        ),
{
    let depth = choose|depth: spec_fn(nat) -> nat| is_tree(gold@, gold.size(), depth);
    gold.lemma_order();
    lemma_swap_oracle_builds_trees(gold@, gold.size(), depth);
}

} // verus!
