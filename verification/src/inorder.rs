//! The projective order of a projective tree is the sentence order: the
//! traversal that lists the left dependents of a token, the token and its
//! right dependents lists the tokens `1..=n`, each once and in this order.

use vstd::prelude::*;
use vstd::set_lib::{lemma_int_range, lemma_len_subset, set_int_range};
use crate::gold::{forest, is_child, projective_order, rank, subtree, subtrees};
use crate::model::Attachment;
use crate::projective::{descends, is_projective, is_tree, lemma_joined, lemma_longer};

verus! {

/// Whether `x` is `a` or descends from it.
pub open spec fn under(gold: Map<nat, Attachment>, n: nat, x: nat, a: nat) -> bool {
    x == a || descends(gold, x, a, n)
}

/// Whether `r` is the token of the sentence that has no head.
pub open spec fn is_root(gold: Map<nat, Attachment>, n: nat, r: nat) -> bool {
    1 <= r <= n && !gold.dom().contains(r)
}

/// Whether the numbers of `s` grow.
pub open spec fn increasing(s: Seq<nat>) -> bool {
    forall|i: int, j: int| 0 <= i < j < s.len() ==> s[i] < s[j]
}

/// The dependent of `h` from which `x` descends or which it is, if `x`
/// descends from `h`; the search gives up after `steps` arcs.
pub open spec fn branch(gold: Map<nat, Attachment>, x: nat, h: nat, steps: nat) -> nat
    decreases steps,
{
    if steps == 0 || !gold.dom().contains(x) {
        0
    } else if gold[x].0 == h {
        x
    } else {
        branch(gold, gold[x].0, h, (steps - 1) as nat)
    }
}

/// Whether no token lies deeper than `bound`.
pub open spec fn bounded(depth: spec_fn(nat) -> nat, n: nat, bound: nat) -> bool {
    forall|x: nat| 1 <= x <= n ==> #[trigger] level(depth, x) <= bound
}

/// The depth of `x`.
pub open spec fn level(depth: spec_fn(nat) -> nat, x: nat) -> nat {
    depth(x)
}

/// Some token of a sentence with tokens has no head.
pub(crate) proof fn lemma_root_exists(gold: Map<nat, Attachment>, n: nat, depth: spec_fn(nat) -> nat, t: nat) -> (r:
    nat)
    requires
        is_tree(gold, n, depth),
        1 <= t <= n,
    ensures
        is_root(gold, n, r),
    decreases depth(t),
{
    if gold.dom().contains(t) {
        lemma_root_exists(gold, n, depth, gold[t].0)
    } else {
        t
    }
}

/// A descendant lies deeper than its ancestor.
pub(crate) proof fn lemma_deeper(
    gold: Map<nat, Attachment>,
    n: nat,
    depth: spec_fn(nat) -> nat,
    d: nat,
    a: nat,
    steps: nat,
)
    requires
        is_tree(gold, n, depth),
        descends(gold, d, a, steps),
    ensures
        depth(d) > depth(a),
        1 <= d <= n,
    decreases steps,
{
    if gold[d].0 != a {
        lemma_deeper(gold, n, depth, gold[d].0, a, (steps - 1) as nat);
    }
}

/// A descendant lies as many arcs below its ancestor as it is deeper, and
/// any number of arcs that is no smaller finds it.
proof fn lemma_descends_exactly(
    gold: Map<nat, Attachment>,
    n: nat,
    depth: spec_fn(nat) -> nat,
    d: nat,
    a: nat,
    steps: nat,
    more: nat,
)
    requires
        is_tree(gold, n, depth),
        descends(gold, d, a, steps),
        more + depth(a) >= depth(d),
    ensures
        depth(d) > depth(a),
        descends(gold, d, a, more),
    decreases steps,
{
    if gold[d].0 != a {
        lemma_descends_exactly(gold, n, depth, gold[d].0, a, (steps - 1) as nat, (more - 1) as nat);
    }
}

/// The tokens from `t` up to the root: they are as many as `t` is deeper
/// than the root, and one more.
proof fn lemma_chain(
    gold: Map<nat, Attachment>,
    n: nat,
    depth: spec_fn(nat) -> nat,
    t: nat,
    r: nat,
) -> (chain: Set<int>)
    requires
        is_tree(gold, n, depth),
        1 <= t <= n,
        is_root(gold, n, r),
    ensures
        chain.finite(),
        chain.len() == depth(t) - depth(r) + 1,
        forall|x: int| chain.contains(x) ==> 1 <= x <= n && depth(x as nat) <= depth(t),
        depth(t) >= depth(r),
        t == r || descends(gold, t, r, (depth(t) - depth(r)) as nat),
    decreases depth(t),
{
    if gold.dom().contains(t) {
        let h = gold[t].0;
        let above = lemma_chain(gold, n, depth, h, r);
        if h != r {
            lemma_descends_exactly(
                gold,
                n,
                depth,
                h,
                r,
                (depth(h) - depth(r)) as nat,
                (depth(h) - depth(r)) as nat,
            );
        }
        above.insert(t as int)
    } else {
        set![t as int]
    }
}

/// Every token is the root or descends from it, by fewer arcs than the
/// sentence has tokens.
pub(crate) proof fn lemma_all_under_root(
    gold: Map<nat, Attachment>,
    n: nat,
    depth: spec_fn(nat) -> nat,
    t: nat,
    r: nat,
)
    requires
        is_tree(gold, n, depth),
        1 <= t <= n,
        is_root(gold, n, r),
    ensures
        depth(t) - depth(r) < n,
        depth(t) >= depth(r),
        under(gold, n, t, r),
{
    let chain = lemma_chain(gold, n, depth, t, r);
    lemma_int_range(1, n as int + 1);
    assert(chain.subset_of(set_int_range(1, n as int + 1)));
    lemma_len_subset(chain, set_int_range(1, n as int + 1));
    if t != r {
        lemma_descends_exactly(
            gold,
            n,
            depth,
            t,
            r,
            (depth(t) - depth(r)) as nat,
            n,
        );
    }
}

/// A descendant of a descendant is a descendant.
pub(crate) proof fn lemma_under_under(
    gold: Map<nat, Attachment>,
    n: nat,
    depth: spec_fn(nat) -> nat,
    r: nat,
    x: nat,
    y: nat,
    z: nat,
)
    requires
        is_tree(gold, n, depth),
        is_root(gold, n, r),
        1 <= z <= n,
        under(gold, n, x, y),
        under(gold, n, y, z),
    ensures
        under(gold, n, x, z),
        depth(x) >= depth(y) >= depth(z),
        x != y ==> depth(x) > depth(y),
{
    if x != y {
        lemma_deeper(gold, n, depth, x, y, n);
    }
    if y != z {
        lemma_deeper(gold, n, depth, y, z, n);
    }
    if x != y && y != z {
        lemma_joined(gold, x, y, z, n, n);
        assert(1 <= x <= n);
        lemma_all_under_root(gold, n, depth, x, r);
        lemma_all_under_root(gold, n, depth, z, r);
        lemma_descends_exactly(gold, n, depth, x, z, n + n, n);
    }
}

/// A token between a token and one of its descendants is a descendant too.
proof fn lemma_between(
    gold: Map<nat, Attachment>,
    n: nat,
    depth: spec_fn(nat) -> nat,
    r: nat,
    d: nat,
    a: nat,
    k: nat,
)
    requires
        is_tree(gold, n, depth),
        is_projective(gold, n),
        is_root(gold, n, r),
        1 <= a <= n,
        under(gold, n, d, a),
        a < k < d || d < k < a,
    ensures
        under(gold, n, k, a),
    decreases depth(d),
{
    let h = gold[d].0;
    assert(gold.dom().contains(d));
    assert(under(gold, n, h, a)) by {
        if h != a {
            lemma_longer(gold, h, a, (n - 1) as nat, n);
        }
    }
    if (d < k < h) || (h < k < d) {
        assert(descends(gold, k, gold[d].0, n));
        lemma_under_under(gold, n, depth, r, k, h, a);
    } else if k == h {
    } else {
        lemma_between(gold, n, depth, r, h, a, k);
    }
}

/// A token descends from one token of a depth only.
pub(crate) proof fn lemma_one_ancestor(
    gold: Map<nat, Attachment>,
    n: nat,
    depth: spec_fn(nat) -> nat,
    x: nat,
    c: nat,
    e: nat,
)
    requires
        is_tree(gold, n, depth),
        under(gold, n, x, c),
        under(gold, n, x, e),
        depth(c) == depth(e),
    ensures
        c == e,
    decreases depth(x),
{
    if x != c {
        lemma_deeper(gold, n, depth, x, c, n);
    }
    if x != e {
        lemma_deeper(gold, n, depth, x, e, n);
    }
    if x != c && x != e {
        let h = gold[x].0;
        if h != c {
            lemma_longer(gold, h, c, (n - 1) as nat, n);
        }
        if h != e {
            lemma_longer(gold, h, e, (n - 1) as nat, n);
        }
        lemma_one_ancestor(gold, n, depth, h, c, e);
    }
}

/// The descendants of a dependent stand before those of a later dependent
/// of the same head.
proof fn lemma_branches_in_order(
    gold: Map<nat, Attachment>,
    n: nat,
    depth: spec_fn(nat) -> nat,
    r: nat,
    h: nat,
    c: nat,
    e: nat,
    x: nat,
    y: nat,
)
    requires
        is_tree(gold, n, depth),
        is_projective(gold, n),
        is_root(gold, n, r),
        is_child(gold, c, h),
        is_child(gold, e, h),
        c < e,
        under(gold, n, x, c),
        under(gold, n, y, e),
    ensures
        x < y,
{
    if x >= y {
        if x == y {
            lemma_one_ancestor(gold, n, depth, x, c, e);
        } else if y <= c {
            if y < c {
                lemma_between(gold, n, depth, r, y, e, c);
            }
            lemma_one_ancestor(gold, n, depth, c, c, e);
        } else {
            lemma_between(gold, n, depth, r, x, c, y);
            lemma_one_ancestor(gold, n, depth, y, c, e);
        }
    }
}

/// A descendant of a dependent stands on the side of its head on which the
/// dependent stands.
proof fn lemma_side(
    gold: Map<nat, Attachment>,
    n: nat,
    depth: spec_fn(nat) -> nat,
    r: nat,
    h: nat,
    c: nat,
    x: nat,
)
    requires
        is_tree(gold, n, depth),
        is_projective(gold, n),
        is_root(gold, n, r),
        is_child(gold, c, h),
        under(gold, n, x, c),
    ensures
        c < h ==> x < h,
        c > h ==> x > h,
        x != h,
{
    if x != c {
        lemma_deeper(gold, n, depth, x, c, n);
    }
    if (c < h && x > h) || (c > h && x < h) {
        lemma_between(gold, n, depth, r, x, c, h);
        if h != c {
            lemma_deeper(gold, n, depth, h, c, n);
        }
    }
}

/// The dependent through which a token descends from a head.
pub(crate) proof fn lemma_branch(
    gold: Map<nat, Attachment>,
    n: nat,
    depth: spec_fn(nat) -> nat,
    x: nat,
    h: nat,
    steps: nat,
)
    requires
        is_tree(gold, n, depth),
        descends(gold, x, h, steps),
    ensures
        is_child(gold, branch(gold, x, h, steps), h),
        1 <= branch(gold, x, h, steps) <= n,
        x == branch(gold, x, h, steps) || descends(gold, x, branch(gold, x, h, steps), steps),
    decreases steps,
{
    if gold[x].0 != h {
        let up = gold[x].0;
        lemma_branch(gold, n, depth, up, h, (steps - 1) as nat);
        let c = branch(gold, up, h, (steps - 1) as nat);
        if up != c {
            lemma_longer(gold, up, c, (steps - 1) as nat, (steps - 1) as nat);
        }
    }
}

/// A token that is a dependent of a head, or descends from one, has that
/// dependent as its branch.
pub(crate) proof fn lemma_branch_is(
    gold: Map<nat, Attachment>,
    n: nat,
    depth: spec_fn(nat) -> nat,
    r: nat,
    x: nat,
    c: nat,
    h: nat,
)
    requires
        is_tree(gold, n, depth),
        is_root(gold, n, r),
        1 <= h <= n,
        is_child(gold, c, h),
        under(gold, n, x, c),
    ensures
        descends(gold, x, h, n),
        branch(gold, x, h, n) == c,
{
    assert(n >= 1);
    assert(descends(gold, c, h, n));
    lemma_under_under(gold, n, depth, r, x, c, h);
    lemma_branch(gold, n, depth, x, h, n);
    let b = branch(gold, x, h, n);
    assert(under(gold, n, x, b));
    lemma_one_ancestor(gold, n, depth, x, b, c);
}

proof fn lemma_joined_increasing(a: Seq<nat>, b: Seq<nat>)
    requires
        increasing(a),
        increasing(b),
        forall|i: int, j: int| 0 <= i < a.len() && 0 <= j < b.len() ==> a[i] < b[j],
    ensures
        increasing(a + b),
        forall|x: nat| (a + b).contains(x) <==> a.contains(x) || b.contains(x),
{
    let s = a + b;
    assert forall|x: nat| s.contains(x) <==> a.contains(x) || b.contains(x) by {
        if s.contains(x) {
            let i = choose|i: int| 0 <= i < s.len() && s[i] == x;
            if i < a.len() {
                assert(a[i] == x);
            } else {
                assert(b[i - a.len()] == x);
            }
        }
        if a.contains(x) {
            let i = choose|i: int| 0 <= i < a.len() && a[i] == x;
            assert(s[i] == x);
        }
        if b.contains(x) {
            let i = choose|i: int| 0 <= i < b.len() && b[i] == x;
            assert(s[a.len() + i] == x);
        }
    }
}

/// Whether `s` holds the token `t` and its descendants, and nothing else.
pub open spec fn holds_subtree(s: Seq<nat>, gold: Map<nat, Attachment>, n: nat, t: nat) -> bool {
    forall|x: nat| #[trigger] s.contains(x) <==> 1 <= x <= n && under(gold, n, x, t)
}

/// Whether `s` holds the descendants of `h` that descend through its
/// dependents among `from..to`, and nothing else.
pub open spec fn holds_branches(
    s: Seq<nat>,
    gold: Map<nat, Attachment>,
    n: nat,
    h: nat,
    from: nat,
    to: nat,
) -> bool {
    forall|x: nat| #[trigger]
        s.contains(x) <==> 1 <= x <= n && descends(gold, x, h, n) && from <= branch(gold, x, h, n)
            < to
}

/// A descendant of `t` stands on the side of `t` on which its branch stands.
proof fn lemma_branch_side(
    gold: Map<nat, Attachment>,
    n: nat,
    depth: spec_fn(nat) -> nat,
    r: nat,
    t: nat,
    x: nat,
)
    requires
        is_tree(gold, n, depth),
        is_projective(gold, n),
        is_root(gold, n, r),
        descends(gold, x, t, n),
    ensures
        1 <= branch(gold, x, t, n) <= n,
        branch(gold, x, t, n) != t,
        branch(gold, x, t, n) < t ==> x < t,
        branch(gold, x, t, n) > t ==> x > t,
{
    lemma_branch(gold, n, depth, x, t, n);
    let c = branch(gold, x, t, n);
    lemma_side(gold, n, depth, r, t, c, x);
    assert(depth(c) == depth(t) + 1);
}

/// The traversal of the subtree of `t` lists `t` and its descendants, in
/// sentence order, if it goes deep enough.
proof fn lemma_subtree_yield(
    gold: Map<nat, Attachment>,
    n: nat,
    depth: spec_fn(nat) -> nat,
    r: nat,
    t: nat,
    fuel: nat,
    bound: nat,
)
    requires
        is_tree(gold, n, depth),
        is_projective(gold, n),
        is_root(gold, n, r),
        1 <= t <= n,
        bounded(depth, n, bound),
        bound < depth(t) + fuel,
    ensures
        increasing(subtree(gold, n, t, fuel)),
        holds_subtree(subtree(gold, n, t, fuel), gold, n, t),
    decreases fuel, 0nat,
{
    assert(level(depth, t) <= bound);
    assert(fuel > 0);
    let f = (fuel - 1) as nat;
    let left = subtrees(gold, n, t, 1, t, f);
    let right = subtrees(gold, n, t, t + 1, n + 1, f);
    lemma_subtrees_yield(gold, n, depth, r, t, 1, t, f, bound);
    lemma_subtrees_yield(gold, n, depth, r, t, t + 1, n + 1, f, bound);
    let middle = seq![t];
    assert(middle[0] == t);
    assert forall|i: int| 0 <= i < left.len() implies #[trigger] left[i] < t by {
        let x = left[i];
        assert(left.contains(x));
        lemma_branch_side(gold, n, depth, r, t, x);
    }
    assert forall|j: int| 0 <= j < right.len() implies t < #[trigger] right[j] by {
        let y = right[j];
        assert(right.contains(y));
        lemma_branch_side(gold, n, depth, r, t, y);
    }
    lemma_joined_increasing(left, middle);
    let first = left + middle;
    assert forall|i: int, j: int| 0 <= i < first.len() && 0 <= j < right.len() implies first[i]
        < right[j] by {
        assert(t < right[j]);
        if i < left.len() {
            assert(first[i] == left[i]);
            assert(left[i] < t);
        } else {
            assert(first[i] == middle[i - left.len()]);
        }
    }
    lemma_joined_increasing(first, right);
    let all = first + right;
    assert(subtree(gold, n, t, fuel) == all);
    assert forall|x: nat| #[trigger] all.contains(x) <==> 1 <= x <= n && under(gold, n, x, t) by {
        assert(all.contains(x) <==> first.contains(x) || right.contains(x));
        assert(first.contains(x) <==> left.contains(x) || middle.contains(x));
        assert(middle.contains(x) <==> x == t) by {
            if x == t {
                assert(middle[0] == x);
            }
        }
        if 1 <= x <= n && descends(gold, x, t, n) {
            lemma_branch_side(gold, n, depth, r, t, x);
            let c = branch(gold, x, t, n);
            if c < t {
                assert(left.contains(x));
            } else {
                assert(right.contains(x));
            }
        }
        if left.contains(x) {
            assert(descends(gold, x, t, n));
        }
        if right.contains(x) {
            assert(descends(gold, x, t, n));
        }
    }
}

/// The traversal of the dependents of `h` among `from..to` lists the
/// descendants of `h` that descend through them, in sentence order, if it
/// goes deep enough.
proof fn lemma_subtrees_yield(
    gold: Map<nat, Attachment>,
    n: nat,
    depth: spec_fn(nat) -> nat,
    r: nat,
    h: nat,
    from: nat,
    to: nat,
    fuel: nat,
    bound: nat,
)
    requires
        is_tree(gold, n, depth),
        is_projective(gold, n),
        is_root(gold, n, r),
        1 <= h <= n,
        1 <= from,
        to <= n + 1,
        bounded(depth, n, bound),
        bound < depth(h) + 1 + fuel,
    ensures
        increasing(subtrees(gold, n, h, from, to, fuel)),
        holds_branches(subtrees(gold, n, h, from, to, fuel), gold, n, h, from, to),
    decreases fuel, 1 + to - from,
{
    let all = subtrees(gold, n, h, from, to, fuel);
    if from < to {
        let next = (from + 1) as nat;
        let rest = subtrees(gold, n, h, next, to, fuel);
        lemma_subtrees_yield(gold, n, depth, r, h, next, to, fuel, bound);
        let part = if is_child(gold, from, h) {
            subtree(gold, n, from, fuel)
        } else {
            Seq::<nat>::empty()
        };
        if is_child(gold, from, h) {
            lemma_subtree_yield(gold, n, depth, r, from, fuel, bound);
        }
        assert forall|i: int, j: int| 0 <= i < part.len() && 0 <= j < rest.len() implies part[i]
            < rest[j] by {
            let x = part[i];
            let y = rest[j];
            assert(part.contains(x));
            assert(rest.contains(y));
            assert(under(gold, n, x, from));
            assert(descends(gold, y, h, n) && next <= branch(gold, y, h, n));
            lemma_branch(gold, n, depth, y, h, n);
            let e = branch(gold, y, h, n);
            lemma_branches_in_order(gold, n, depth, r, h, from, e, x, y);
        }
        lemma_joined_increasing(part, rest);
        let joined = part + rest;
        assert(all == joined);
        assert forall|x: nat| #[trigger]
            joined.contains(x) <==> 1 <= x <= n && descends(gold, x, h, n) && from <= branch(
                gold,
                x,
                h,
                n,
            ) < to by {
            assert(joined.contains(x) <==> part.contains(x) || rest.contains(x));
            if part.contains(x) {
                assert(under(gold, n, x, from));
                lemma_branch_is(gold, n, depth, r, x, from, h);
            }
            if rest.contains(x) {
                assert(descends(gold, x, h, n));
            }
            if 1 <= x <= n && descends(gold, x, h, n) && from <= branch(gold, x, h, n) < to {
                lemma_branch(gold, n, depth, x, h, n);
                if branch(gold, x, h, n) == from {
                    assert(under(gold, n, x, from));
                    assert(part.contains(x));
                } else {
                    assert(rest.contains(x));
                }
            }
        }
    } else {
        assert forall|x: nat| !(#[trigger] all.contains(x)) by {}
    }
}

/// The traversal from the tokens without head among `from..=n` on is the
/// traversal of the subtree of the root, if the root is among them.
pub(crate) proof fn lemma_forest(gold: Map<nat, Attachment>, n: nat, depth: spec_fn(nat) -> nat, r: nat, from: nat)
    requires
        is_tree(gold, n, depth),
        is_root(gold, n, r),
        1 <= from,
    ensures
        forest(gold, n, from) == if from <= r {
            subtree(gold, n, r, n)
        } else {
            Seq::<nat>::empty()
        },
    decreases 1 + n - from,
{
    if from <= n {
        lemma_forest(gold, n, depth, r, from + 1);
        let part = if gold.dom().contains(from) {
            Seq::<nat>::empty()
        } else {
            subtree(gold, n, from, n)
        };
        let rest = forest(gold, n, from + 1);
        assert(forest(gold, n, from) == part + rest);
        if from == r {
            assert(part + rest =~= part);
        } else {
            assert(gold.dom().contains(from));
            assert(part + rest =~= rest);
        }
    }
}

/// In a sequence that grows, a smaller number has an earlier place.
proof fn lemma_rank_grows(s: Seq<nat>, x: nat, y: nat)
    requires
        increasing(s),
        s.contains(x),
        s.contains(y),
        x < y,
    ensures
        rank(s, x) < rank(s, y),
    decreases s.len(),
{
    let i = choose|i: int| 0 <= i < s.len() && s[i] == x;
    let j = choose|j: int| 0 <= j < s.len() && s[j] == y;
    assert(i < j) by {
        if j <= i {
            if j < i {
                assert(s[j] < s[i]);
            }
        }
    }
    if s[0] == x {
    } else {
        let rest = s.drop_first();
        assert(s[0] != y) by {
            if i > 0 {
                assert(s[0] < s[i]);
            }
        }
        assert(rest[i - 1] == x);
        assert(rest[j - 1] == y);
        assert forall|a: int, b: int| 0 <= a < b < rest.len() implies rest[a] < rest[b] by {
            assert(rest[a] == s[a + 1]);
            assert(rest[b] == s[b + 1]);
        }
        lemma_rank_grows(rest, x, y);
    }
}

/// The projective order of a projective tree is the sentence order: of two
/// tokens the earlier has the earlier place.
pub proof fn lemma_projective_order_of_projective_tree(
    gold: Map<nat, Attachment>,
    n: nat,
    depth: spec_fn(nat) -> nat,
    s: nat,
    t: nat,
)
    requires
        is_tree(gold, n, depth),
        is_projective(gold, n),
        1 <= s < t <= n,
    ensures
        rank(projective_order(gold, n), s) < rank(projective_order(gold, n), t),
{
    let r = lemma_root_exists(gold, n, depth, s);
    lemma_forest(gold, n, depth, r, 1);
    let bound = (depth(r) + n - 1) as nat;
    assert forall|x: nat| 1 <= x <= n implies #[trigger] level(depth, x) <= bound by {
        lemma_all_under_root(gold, n, depth, x, r);
    }
    lemma_subtree_yield(gold, n, depth, r, r, n, bound);
    lemma_all_under_root(gold, n, depth, s, r);
    lemma_all_under_root(gold, n, depth, t, r);
    let order = projective_order(gold, n);
    assert(order.contains(s));
    assert(order.contains(t));
    lemma_rank_grows(order, s, t);
}

} // verus!
