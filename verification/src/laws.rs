//! What holds of every parse: the invariants of a configuration survive each
//! legal transition, arcs are never overwritten, and the number of
//! transitions of a parse is fixed by its first and last configuration.

use vstd::prelude::*;
use crate::model::{
    initial, legal, legal_run, reaches, run, step, swap_limit, terminal, Configuration, Move,
    SystemKind,
};
use crate::parser::{
    active, ascending, batched, choices, greedy, round, round_legal, total_potential,
};

verus! {

proof fn lemma_remove_keeps(s: Seq<nat>, k: int)
    requires
        s.no_duplicates(),
        0 <= k < s.len(),
    ensures
        s.remove(k).no_duplicates(),
        !s.remove(k).contains(s[k]),
        forall|t: nat| s.contains(t) && t != s[k] ==> s.remove(k).contains(t),
{
    let r = s.remove(k);
    assert forall|t: nat| s.contains(t) && t != s[k] implies r.contains(t) by {
        let i = choose|i: int| 0 <= i < s.len() && s[i] == t;
        if i < k {
            assert(r[i] == t);
        } else {
            assert(r[i - 1] == t);
        }
    }
}

proof fn lemma_exchange_keeps(s: Seq<nat>, r: Seq<nat>, k: int)
    requires
        s.no_duplicates(),
        0 <= k && k + 1 < s.len(),
        r.len() == s.len(),
        r[k] == s[k + 1],
        r[k + 1] == s[k],
        forall|i: int| 0 <= i < s.len() && i != k && i != k + 1 ==> r[i] == s[i],
    ensures
        r.no_duplicates(),
        forall|t: nat| s.contains(t) ==> r.contains(t),
{
    let swapped = |i: int| if i == k { k + 1 } else if i == k + 1 { k } else { i };
    assert forall|i: int, j: int| 0 <= i < r.len() && 0 <= j < r.len() && i != j implies r[i]
        != r[j] by {
        assert(r[i] == s[swapped(i)]);
        assert(r[j] == s[swapped(j)]);
    }
    assert forall|t: nat| s.contains(t) implies r.contains(t) by {
        let i = choose|i: int| 0 <= i < s.len() && s[i] == t;
        assert(r[swapped(i)] == t);
    }
}

/// A parse starts from a consistent configuration.
pub proof fn lemma_initial_consistent(kind: SystemKind, n: nat)
    ensures
        initial(n).consistent(kind),
        initial(n).potential() == 2 * n + 2 * swap_limit(n),
{
    let c = initial(n);
    assert(c.live() =~= c.buffer);
    assert forall|t: nat| 1 <= t <= n implies c.live().contains(t) by {
        assert(c.live()[t - 1] == t);
    }
}

/// A legal transition keeps indices within the sentence, leaves every arc as
/// it was and uses up one unit of the potential.
pub proof fn lemma_step_regular(kind: SystemKind, c: Configuration, m: Move)
    requires
        c.well_formed(),
        legal(kind, c, m),
    ensures
        step(kind, c, m).well_formed(),
        step(kind, c, m).tokens == c.tokens,
        c.arcs_kept_by(step(kind, c, m)),
        step(kind, c, m).potential() + 1 == c.potential(),
{
}

/// A legal transition keeps a configuration consistent, leaves every arc as
/// it was, attaches at most one token, and uses up one unit of the potential.
pub proof fn lemma_step_consistent(kind: SystemKind, c: Configuration, m: Move)
    requires
        c.consistent(kind),
        legal(kind, c, m),
    ensures
        step(kind, c, m).consistent(kind),
        step(kind, c, m).tokens == c.tokens,
        c.arcs_kept_by(step(kind, c, m)),
        forall|s: nat, t: nat|
            #![trigger step(kind, c, m).arcs.dom().contains(s), step(kind, c, m).arcs.dom().contains(t)]
            step(kind, c, m).attached(s) && step(kind, c, m).attached(t) && !c.attached(s)
                && !c.attached(t) ==> s == t,
        step(kind, c, m).potential() + 1 == c.potential(),
{
    let d = step(kind, c, m);
    let live = c.live();
    let n = c.stack.len() as int;
    assert(forall|i: int| 0 <= i < n ==> live[i] == c.stack[i]);
    assert(forall|i: int| 0 <= i < c.buffer.len() ==> live[n + i] == c.buffer[i]);
    let gone = |x: nat|
        {
            &&& forall|i: int| 0 <= i < d.stack.len() ==> #[trigger] d.stack[i] != x
            &&& forall|i: int| 0 <= i < d.buffer.len() ==> #[trigger] d.buffer[i] != x
        };
    assert forall|x: nat| !d.live().contains(x) implies gone(x) by {
        assert(forall|i: int| 0 <= i < d.stack.len() ==> d.live()[i] == d.stack[i]);
        assert(forall|i: int|
            0 <= i < d.buffer.len() ==> d.live()[d.stack.len() + i] == d.buffer[i]);
    }
    match m {
        Move::Shift => {
            assert(d.live() =~= live);
            assert(d.stack[0] == if n == 0 { c.buffer[0] } else { c.stack[0] });
        },
        Move::LeftArc(_) => {
            if kind.arcs_on_stack() {
                lemma_remove_keeps(live, n - 2);
                assert(d.live() =~= live.remove(n - 2));
                assert(live[n - 2] == c.second());
                assert(live[n - 1] == c.top());
                assert(gone(c.second()));
            } else {
                lemma_remove_keeps(live, n - 1);
                assert(d.live() =~= live.remove(n - 1));
                assert(live[n - 1] == c.top());
                assert(live[n] == c.front());
                assert(gone(c.top()));
            }
        },
        Move::RightArc(_) => {
            if kind == SystemKind::ArcEager {
                assert(d.live() =~= live);
                assert(live[n - 1] == c.top());
                assert(live[n] == c.front());
                assert(live[0] == c.stack[0]);
            } else {
                lemma_remove_keeps(live, n - 1);
                assert(d.live() =~= live.remove(n - 1));
                assert(live[n - 2] == c.second());
                assert(live[n - 1] == c.top());
                assert(gone(c.top()));
            }
        },
        Move::Reduce => {
            lemma_remove_keeps(live, n - 1);
            assert(d.live() =~= live.remove(n - 1));
            assert(live[n - 1] == c.top());
        },
        Move::Swap => {
            lemma_exchange_keeps(live, d.live(), n - 2);
        },
    }
}

/// Every configuration that a parse reaches is consistent, keeps the arcs of
/// the one it came from, and lies as many units of potential below it as
/// transitions were applied.
pub proof fn lemma_run_consistent(kind: SystemKind, c: Configuration, moves: Seq<Move>)
    requires
        c.consistent(kind),
        legal_run(kind, c, moves),
    ensures
        run(kind, c, moves).consistent(kind),
        run(kind, c, moves).tokens == c.tokens,
        c.arcs_kept_by(run(kind, c, moves)),
        run(kind, c, moves).potential() + moves.len() == c.potential(),
    decreases moves.len(),
{
    if moves.len() > 0 {
        lemma_run_consistent(kind, c, moves.drop_last());
        lemma_step_consistent(kind, run(kind, c, moves.drop_last()), moves.last());
    }
}

/// A parse that has ended has given a head to every token but one, the
/// root, which is what is left on the stack.
pub proof fn lemma_terminal_has_one_root(kind: SystemKind, c: Configuration)
    requires
        c.consistent(kind),
        terminal(kind, c),
        c.tokens >= 1,
    ensures
        c.stack.len() == 1,
        1 <= c.stack[0] <= c.tokens,
        forall|t: nat| 1 <= t <= c.tokens ==> (c.arcs.dom().contains(t) <==> t != c.stack[0]),
{
    assert(c.live() =~= c.stack);
    assert forall|t: nat| 1 <= t <= c.tokens implies (c.arcs.dom().contains(t) <==> t
        != c.stack[0]) by {
        if !c.arcs.dom().contains(t) {
            assert(c.live().contains(t));
        }
    }
}

/// Only the stack-swap system swaps.
pub proof fn lemma_run_without_swaps(kind: SystemKind, c: Configuration, moves: Seq<Move>)
    requires
        kind != SystemKind::StackSwap,
        legal_run(kind, c, moves),
    ensures
        run(kind, c, moves).swaps == c.swaps,
    decreases moves.len(),
{
    if moves.len() > 0 {
        lemma_run_without_swaps(kind, c, moves.drop_last());
    }
}

/// Under every system but stack-swap, a parse of a sentence of `n >= 1`
/// tokens takes exactly `2n - 1` transitions, whichever legal ones are chosen.
pub proof fn lemma_parse_length(kind: SystemKind, n: nat, moves: Seq<Move>)
    requires
        n >= 1,
        kind != SystemKind::StackSwap,
        legal_run(kind, initial(n), moves),
        terminal(kind, run(kind, initial(n), moves)),
    ensures
        moves.len() == 2 * n - 1,
{
    lemma_initial_consistent(kind, n);
    lemma_run_consistent(kind, initial(n), moves);
    lemma_run_without_swaps(kind, initial(n), moves);
}

/// Under stack-swap a parse of `n >= 1` tokens takes `2n - 1` transitions and
/// two more for each swap, so at most `n * n + n - 1`; no sequence of legal
/// transitions is longer than `n * n + n`.
pub proof fn lemma_swap_parse_length(n: nat, moves: Seq<Move>)
    requires
        legal_run(SystemKind::StackSwap, initial(n), moves),
    ensures
        moves.len() <= n * n + n,
        n >= 1 && terminal(SystemKind::StackSwap, run(SystemKind::StackSwap, initial(n), moves))
            ==> moves.len() == 2 * n - 1 + 2 * run(SystemKind::StackSwap, initial(n), moves).swaps
            && moves.len() <= n * n + n - 1,
{
    let kind = SystemKind::StackSwap;
    lemma_initial_consistent(kind, n);
    lemma_run_consistent(kind, initial(n), moves);
    assert(2 * swap_limit(n) <= n * (n - 1)) by (nonlinear_arith)
        requires
            swap_limit(n) == (n * (n - 1) / 2) as nat,
    ;
    assert(n * (n - 1) == n * n - n) by (nonlinear_arith);
}

/// Every configuration is reached from itself.
pub(crate) proof fn lemma_reaches_start(kind: SystemKind, c: Configuration)
    ensures
        reaches(kind, c, c),
{
    let none = Seq::<Move>::empty();
    assert(legal_run(kind, c, none) && run(kind, c, none) == c);
}

/// One more legal transition reaches one configuration further.
pub(crate) proof fn lemma_reaches_step(kind: SystemKind, from: Configuration, to: Configuration, m: Move)
    requires
        reaches(kind, from, to),
        legal(kind, to, m),
    ensures
        reaches(kind, from, step(kind, to, m)),
{
    let path = choose|path: Seq<Move>| legal_run(kind, from, path) && run(kind, from, path) == to;
    let longer = path.push(m);
    assert(longer.drop_last() =~= path);
    assert(legal_run(kind, from, longer) && run(kind, from, longer) == step(kind, to, m));
}

/// The parses listed as active are those that have not ended, each once and
/// in batch order.
pub proof fn lemma_active_positions(kind: SystemKind, batch: Seq<Configuration>)
    ensures
        ascending(active(kind, batch), batch.len()),
        forall|i: int|
            0 <= i < batch.len() ==> (active(kind, batch).contains(i) <==> !terminal(
                kind,
                #[trigger] batch[i],
            )),
    decreases batch.len(),
{
    if batch.len() > 0 {
        let rest = batch.drop_last();
        lemma_active_positions(kind, rest);
        let listed = active(kind, rest);
        let all = active(kind, batch);
        assert forall|i: int| 0 <= i < batch.len() implies (all.contains(i) <==> !terminal(
            kind,
            #[trigger] batch[i],
        )) by {
            if i < rest.len() {
                assert(rest[i] == batch[i]);
                if listed.contains(i) {
                    let j = choose|j: int| 0 <= j < listed.len() && listed[j] == i;
                    assert(all[j] == i);
                }
                if all.contains(i) {
                    let j = choose|j: int| 0 <= j < all.len() && all[j] == i;
                    assert(listed[j] == i);
                }
            } else {
                if !terminal(kind, batch.last()) {
                    assert(all[all.len() - 1] == i);
                }
            }
        }
    }
}

/// A round changes the parses at the given positions, each by the
/// transition chosen for it, and no other.
pub proof fn lemma_round_effect(
    kind: SystemKind,
    batch: Seq<Configuration>,
    positions: Seq<int>,
    chosen: Seq<Move>,
)
    requires
        ascending(positions, batch.len()),
        positions.len() == chosen.len(),
    ensures
        round(kind, batch, positions, chosen).len() == batch.len(),
        forall|j: int|
            0 <= j < positions.len() ==> round(kind, batch, positions, chosen)[#[trigger] positions[j]]
                == step(kind, batch[positions[j]], chosen[j]),
        forall|i: int|
            0 <= i < batch.len() && !positions.contains(i) ==> #[trigger] round(
                kind,
                batch,
                positions,
                chosen,
            )[i] == batch[i],
    decreases positions.len(),
{
    if positions.len() > 0 {
        let earlier = positions.drop_last();
        lemma_round_effect(kind, batch, earlier, chosen.drop_last());
        let after = round(kind, batch, positions, chosen);
        assert forall|j: int| 0 <= j < positions.len() implies after[#[trigger] positions[j]]
            == step(kind, batch[positions[j]], chosen[j]) by {
            if j < earlier.len() {
                assert(earlier[j] == positions[j]);
                assert(positions[j] < positions.last());
            }
        }
        assert forall|i: int| 0 <= i < batch.len() && !positions.contains(i) implies after[i]
            == batch[i] by {
            assert(positions[positions.len() - 1] != i);
            if earlier.contains(i) {
                let j = choose|j: int| 0 <= j < earlier.len() && earlier[j] == i;
                assert(positions[j] == i);
            }
        }
    }
}

proof fn lemma_total_update(batch: Seq<Configuration>, i: int, c: Configuration)
    requires
        0 <= i < batch.len(),
    ensures
        total_potential(batch.update(i, c)) + batch[i].potential() == total_potential(batch)
            + c.potential(),
    decreases batch.len(),
{
    let changed = batch.update(i, c);
    if i == batch.len() - 1 {
        assert(changed.drop_last() =~= batch.drop_last());
    } else {
        lemma_total_update(batch.drop_last(), i, c);
        assert(changed.drop_last() =~= batch.drop_last().update(i, c));
    }
}

/// A round of legal transitions uses up one unit of potential for each
/// parse that takes part.
pub proof fn lemma_round_potential(
    kind: SystemKind,
    batch: Seq<Configuration>,
    positions: Seq<int>,
    chosen: Seq<Move>,
)
    requires
        ascending(positions, batch.len()),
        round_legal(kind, batch, positions, chosen),
        forall|i: int| 0 <= i < batch.len() ==> (#[trigger] batch[i]).well_formed(),
    ensures
        total_potential(round(kind, batch, positions, chosen)) + positions.len()
            == total_potential(batch),
    decreases positions.len(),
{
    if positions.len() > 0 {
        let earlier = positions.drop_last();
        let p = positions.last();
        assert forall|j: int| 0 <= j < earlier.len() implies legal(
            kind,
            batch[#[trigger] earlier[j]],
            chosen.drop_last()[j],
        ) by {
            assert(earlier[j] == positions[j]);
        }
        lemma_round_potential(kind, batch, earlier, chosen.drop_last());
        lemma_round_effect(kind, batch, earlier, chosen.drop_last());
        let before = round(kind, batch, earlier, chosen.drop_last());
        assert(!earlier.contains(p)) by {
            if earlier.contains(p) {
                let j = choose|j: int| 0 <= j < earlier.len() && earlier[j] == p;
                assert(positions[j] < positions[positions.len() - 1]);
            }
        }
        assert(before[p] == batch[p]);
        assert(legal(kind, batch[positions[positions.len() - 1]], chosen.last()));
        lemma_step_regular(kind, batch[p], chosen.last());
        lemma_total_update(before, p, step(kind, batch[p], chosen.last()));
    }
}

/// Parsing sentences together gives what parsing them one by one gives:
/// when one policy chooses the transitions, each parse of a batch is, after
/// any number of rounds, where it is after as many transitions on its own.
pub proof fn lemma_batch_is_sequential(
    kind: SystemKind,
    batch: Seq<Configuration>,
    policy: spec_fn(Configuration) -> Move,
    rounds: nat,
)
    ensures
        batched(kind, batch, policy, rounds).len() == batch.len(),
        forall|i: int|
            0 <= i < batch.len() ==> #[trigger] batched(kind, batch, policy, rounds)[i] == greedy(
                kind,
                batch[i],
                policy,
                rounds,
            ),
    decreases rounds,
{
    let positions = active(kind, batch);
    lemma_active_positions(kind, batch);
    if rounds == 0 {
    } else if positions.len() == 0 {
        assert forall|i: int| 0 <= i < batch.len() implies terminal(kind, batch[i]) by {
            if !terminal(kind, batch[i]) {
                assert(positions.contains(i));
            }
        }
    } else {
        let chosen = choices(batch, positions, policy);
        let next = round(kind, batch, positions, chosen);
        lemma_round_effect(kind, batch, positions, chosen);
        lemma_batch_is_sequential(kind, next, policy, (rounds - 1) as nat);
        assert forall|i: int| 0 <= i < batch.len() implies #[trigger] batched(
            kind,
            batch,
            policy,
            rounds,
        )[i] == greedy(kind, batch[i], policy, rounds) by {
            assert(batched(kind, next, policy, (rounds - 1) as nat)[i] == greedy(
                kind,
                next[i],
                policy,
                (rounds - 1) as nat,
            ));
            if terminal(kind, batch[i]) {
                assert(!positions.contains(i));
                assert(next[i] == batch[i]);
            } else {
                assert(positions.contains(i));
                let j = choose|j: int| 0 <= j < positions.len() && positions[j] == i;
                assert(next[positions[j]] == step(kind, batch[positions[j]], chosen[j]));
            }
        }
    }
}

} // verus!
