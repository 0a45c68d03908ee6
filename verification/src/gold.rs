//! Gold trees: the arcs that a parse should build, and the order in which a
//! parser that may reorder tokens should see them.

use vstd::prelude::*;
use crate::dependency::DependencySet;
use crate::model::Attachment;
use crate::state::as_tokens;

verus! {

/// Whether `gold` makes `h` the head of `m`.
pub open spec fn is_child(gold: Map<nat, Attachment>, m: nat, h: nat) -> bool {
    gold.dom().contains(m) && gold[m].0 == h
}

/// The tokens of the subtree of `t`, each token between its left and its
/// right dependents; a subtree is followed to a depth of `depth` tokens.
pub open spec fn subtree(gold: Map<nat, Attachment>, n: nat, t: nat, depth: nat) -> Seq<nat>
    decreases depth, 0nat,
{
    if depth == 0 {
        Seq::empty()
    } else {
        subtrees(gold, n, t, 1, t, (depth - 1) as nat) + seq![t] + subtrees(
            gold,
            n,
            t,
            t + 1,
            n + 1,
            (depth - 1) as nat,
        )
    }
}

/// The subtrees of the dependents of `h` among the tokens `from..to`, in
/// sentence order of the dependents.
pub open spec fn subtrees(
    gold: Map<nat, Attachment>,
    n: nat,
    h: nat,
    from: nat,
    to: nat,
    depth: nat,
) -> Seq<nat>
    decreases depth, 1 + to - from,
{
    if from >= to {
        Seq::empty()
    } else {
        (if is_child(gold, from, h) {
            subtree(gold, n, from, depth)
        } else {
            Seq::empty()
        }) + subtrees(gold, n, h, from + 1, to, depth)
    }
}

/// The subtrees of the tokens `from..=n` that have no head, in sentence order.
pub open spec fn forest(gold: Map<nat, Attachment>, n: nat, from: nat) -> Seq<nat>
    decreases 1 + n - from,
{
    if from > n {
        Seq::empty()
    } else {
        (if gold.dom().contains(from) {
            Seq::empty()
        } else {
            subtree(gold, n, from, n)
        }) + forest(gold, n, from + 1)
    }
}

/// The projective order of a tree over `n` tokens: its tokens as a traversal
/// meets them that visits the left dependents of a token, the token, and its
/// right dependents. In a projective tree this is the sentence order.
pub open spec fn projective_order(gold: Map<nat, Attachment>, n: nat) -> Seq<nat> {
    forest(gold, n, 1)
}

/// The first place of `t` in `order`, and the length of `order` if it has none.
pub open spec fn rank(order: Seq<nat>, t: nat) -> nat
    decreases order.len(),
{
    if order.len() == 0 {
        0
    } else if order[0] == t {
        0
    } else {
        1 + rank(order.drop_first(), t)
    }
}

fn visit(gold: &DependencySet, t: usize, depth: usize, order: &mut Vec<usize>)
    requires
        1 <= t <= gold.size(),
    ensures
        as_tokens(final(order)@) == as_tokens(old(order)@) + subtree(
            gold@,
            gold.size(),
            t as nat,
            depth as nat,
        ),
    decreases depth, 0nat,
{
    if depth == 0 {
        assert(as_tokens(order@) =~= as_tokens(old(order)@) + Seq::<nat>::empty());
        return ;
    }
    let n = gold.tokens();
    let ghost before = as_tokens(order@);
    visit_all(gold, t, 1, t - 1, depth - 1, order);
    let ghost left = as_tokens(order@);
    order.push(t);
    let ghost middle = as_tokens(order@);
    assert(middle =~= left + seq![t as nat]);
    if t < n {
        visit_all(gold, t, t + 1, n, depth - 1, order);
    }
    assert(as_tokens(order@) =~= before + subtree(gold@, gold.size(), t as nat, depth as nat)) by {
        let right = subtrees(gold@, n as nat, t as nat, (t + 1) as nat, (n + 1) as nat, (depth - 1) as nat);
        assert(as_tokens(order@) =~= middle + right);
    }
}

fn visit_all(
    gold: &DependencySet,
    h: usize,
    from: usize,
    last: usize,
    depth: usize,
    order: &mut Vec<usize>,
)
    requires
        1 <= from,
        last <= gold.size(),
    ensures
        as_tokens(final(order)@) == as_tokens(old(order)@) + subtrees(
            gold@,
            gold.size(),
            h as nat,
            from as nat,
            (last + 1) as nat,
            depth as nat,
        ),
    decreases depth, 2 + last - from,
{
    if from > last {
        assert(as_tokens(order@) =~= as_tokens(old(order)@) + Seq::<nat>::empty());
        return ;
    }
    let ghost before = as_tokens(order@);
    let child = match gold.get(from) {
        Some(d) => d.head == h,
        None => false,
    };
    if child {
        visit(gold, from, depth, order);
    }
    let ghost first = as_tokens(order@);
    if from < last {
        visit_all(gold, h, from + 1, last, depth, order);
    }
    assert(as_tokens(order@) =~= before + subtrees(
        gold@,
        gold.size(),
        h as nat,
        from as nat,
        (last + 1) as nat,
        depth as nat,
    )) by {
        let part = if is_child(gold@, from as nat, h as nat) {
            subtree(gold@, gold.size(), from as nat, depth as nat)
        } else {
            Seq::empty()
        };
        let rest = subtrees(
            gold@,
            gold.size(),
            h as nat,
            (from + 1) as nat,
            (last + 1) as nat,
            depth as nat,
        );
        assert(first =~= before + part);
        assert(as_tokens(order@) =~= first + rest);
    }
}

/// A gold tree: the arcs of a sentence together with its projective order.
#[derive(Debug)]
pub struct GoldTree {
    arcs: DependencySet,
    order: Vec<usize>,
    places: Vec<usize>,
}

impl View for GoldTree {
    type V = Map<nat, Attachment>;

    closed spec fn view(&self) -> Map<nat, Attachment> {
        self.arcs@
    }
}

impl GoldTree {
    /// The number of tokens of the sentence.
    pub closed spec fn size(&self) -> nat {
        self.arcs.size()
    }

    /// The tokens in projective order.
    pub closed spec fn order(&self) -> Seq<nat> {
        as_tokens(self.order@)
    }

    /// The order is the projective order of the arcs.
    pub closed spec fn wf(&self) -> bool {
        &&& self.places.len() == self.arcs.size()
        &&& as_tokens(self.order@) == projective_order(self.arcs@, self.arcs.size())
        &&& forall|t: int|
            0 <= t < self.places.len() ==> #[trigger] self.places[t] == rank(
                as_tokens(self.order@),
                (t + 1) as nat,
            )
    }

    /// The order of a gold tree is the projective order of its arcs.
    pub proof fn lemma_order(&self)
        requires
            self.wf(),
        ensures
            self.order() == projective_order(self@, self.size()),
    {
    }

    /// The gold tree with the arcs `arcs`.
    pub fn new(arcs: DependencySet) -> (tree: GoldTree)
        ensures
            tree.wf(),
            tree@ == arcs@,
            tree.size() == arcs.size(),
    {
        let n = arcs.tokens();
        let mut order: Vec<usize> = Vec::new();
        let mut t: usize = 0;
        assert(as_tokens(order@) + forest(arcs@, n as nat, 1) =~= forest(arcs@, n as nat, 1));
        while t < n
            invariant
                t <= n,
                n == arcs.size(),
                forest(arcs@, n as nat, 1) == as_tokens(order@) + forest(
                    arcs@,
                    n as nat,
                    (t + 1) as nat,
                ),
            decreases n - t,
        {
            t += 1;
            let ghost before = as_tokens(order@);
            if arcs.get(t).is_none() {
                visit(&arcs, t, n, &mut order);
            }
            proof {
                let part = if arcs@.dom().contains(t as nat) {
                    Seq::<nat>::empty()
                } else {
                    subtree(arcs@, n as nat, t as nat, n as nat)
                };
                let rest = forest(arcs@, n as nat, (t + 1) as nat);
                assert(as_tokens(order@) =~= before + part);
                assert(before + (part + rest) =~= (before + part) + rest);
            }
        }
        assert(as_tokens(order@) + Seq::<nat>::empty() =~= as_tokens(order@));
        let len = order.len();
        let mut places: Vec<usize> = Vec::new();
        let mut k: usize = 0;
        while k < n
            invariant
                k <= n,
                places.len() == k,
                forall|j: int| 0 <= j < k ==> places[j] == len,
            decreases n - k,
        {
            places.push(len);
            k += 1;
        }
        let ghost all = as_tokens(order@);
        let mut i: usize = len;
        assert(all.subrange(len as int, len as int) =~= Seq::<nat>::empty());
        while i > 0
            invariant
                i <= len,
                len == order.len(),
                all == as_tokens(order@),
                places.len() == n,
                forall|j: int|
                    0 <= j < n ==> #[trigger] places[j] == i + rank(
                        all.subrange(i as int, len as int),
                        (j + 1) as nat,
                    ),
            decreases i,
        {
            i -= 1;
            let t = order[i];
            let ghost rest = all.subrange(i + 1, len as int);
            let ghost more = all.subrange(i as int, len as int);
            assert(more.drop_first() =~= rest);
            assert(more[0] == t as nat);
            if 1 <= t && t <= n {
                places.set(t - 1, i);
            }
        }
        assert(all.subrange(0, len as int) =~= all);
        GoldTree { arcs, order, places }
    }

    /// The arcs of the tree.
    pub fn arcs(&self) -> (arcs: &DependencySet)
        ensures
            arcs@ == self@,
            arcs.size() == self.size(),
    {
        &self.arcs
    }

    /// The number of tokens of the sentence.
    pub fn tokens(&self) -> (n: usize)
        ensures
            n == self.size(),
    {
        self.arcs.tokens()
    }

    /// The place of token `t` in the projective order; a token that the
    /// order does not hold has the length of the order as its place.
    pub fn place(&self, t: usize) -> (place: usize)
        requires
            self.wf(),
            1 <= t <= self.size(),
        ensures
            place == rank(self.order(), t as nat),
    {
        self.places[t - 1]
    }
}

} // verus!
