//! Training instances: a gold tree is replayed through the static oracle,
//! and each state is shown to a collector together with the transition that
//! the oracle takes in it, before the transition is applied.

use vstd::prelude::*;
use crate::error::Error;
use crate::gold::GoldTree;
use crate::laws::lemma_step_regular;
use crate::model::{
    initial, legal_run, run, step, terminal, Attachment, Configuration, Move, SystemKind,
};
use crate::oracle::{lemma_oracle_legal, oracle};
use crate::projective::{is_projective_tree, lemma_projective_gold_tree_is_built};
use crate::swapping::{is_a_tree, lemma_swap_gold_tree_is_built};
use crate::state::{ParserState, Token};
use crate::table::{listed, number_of, TransitionSystem};
use crate::tensors::InputVectorizer;
use crate::transition::Transition;

verus! {

/// The transitions that the static oracle takes from `c` on, up to the end
/// of the parse or to the point where it knows none, and `fuel` at most.
pub open spec fn oracle_moves(
    kind: SystemKind,
    c: Configuration,
    gold: Map<nat, Attachment>,
    n: nat,
    order: Seq<nat>,
    fuel: nat,
) -> Seq<Move>
    decreases fuel,
{
    if fuel == 0 || terminal(kind, c) {
        Seq::empty()
    } else {
        match oracle(kind, c, gold, n, order) {
            Some(m) => seq![m] + oracle_moves(
                kind,
                step(kind, c, m),
                gold,
                n,
                order,
                (fuel - 1) as nat,
            ),
            None => Seq::empty(),
        }
    }
}

/// The configuration to which the transitions of `oracle_moves` lead.
pub open spec fn oracle_end(
    kind: SystemKind,
    c: Configuration,
    gold: Map<nat, Attachment>,
    n: nat,
    order: Seq<nat>,
    fuel: nat,
) -> Configuration
    decreases fuel,
{
    if fuel == 0 || terminal(kind, c) {
        c
    } else {
        match oracle(kind, c, gold, n, order) {
            Some(m) => oracle_end(kind, step(kind, c, m), gold, n, order, (fuel - 1) as nat),
            None => c,
        }
    }
}

/// Whether `to` lies on the way of the static oracle from `from`: it is
/// where the oracle is after some number of its transitions.
pub open spec fn on_oracle_way(
    kind: SystemKind,
    from: Configuration,
    to: Configuration,
    gold: Map<nat, Attachment>,
    n: nat,
    order: Seq<nat>,
) -> bool {
    exists|taken: nat| #[trigger] oracle_end(kind, from, gold, n, order, taken) == to
}

/// One more transition leads the oracle one configuration further.
pub proof fn lemma_oracle_further(
    kind: SystemKind,
    c: Configuration,
    gold: Map<nat, Attachment>,
    n: nat,
    order: Seq<nat>,
    taken: nat,
)
    requires
        !terminal(kind, oracle_end(kind, c, gold, n, order, taken)),
        oracle(kind, oracle_end(kind, c, gold, n, order, taken), gold, n, order) is Some,
    ensures
        oracle_end(kind, c, gold, n, order, taken + 1) == step(
            kind,
            oracle_end(kind, c, gold, n, order, taken),
            oracle(kind, oracle_end(kind, c, gold, n, order, taken), gold, n, order)->0,
        ),
    decreases taken,
{
    let more = (taken + 1) as nat;
    if !terminal(kind, c) {
        match oracle(kind, c, gold, n, order) {
            Some(m) => {
                let next = step(kind, c, m);
                assert(oracle_end(kind, c, gold, n, order, more) == oracle_end(
                    kind,
                    next,
                    gold,
                    n,
                    order,
                    taken,
                ));
                if taken > 0 {
                    let less = (taken - 1) as nat;
                    assert(oracle_end(kind, c, gold, n, order, taken) == oracle_end(
                        kind,
                        next,
                        gold,
                        n,
                        order,
                        less,
                    ));
                    lemma_oracle_further(kind, next, gold, n, order, less);
                }
            },
            None => {},
        }
    }
}

/// Whether the static oracle of `kind` builds exactly the tree `gold`
/// from the configuration `c`.
pub open spec fn oracle_builds(
    kind: SystemKind,
    c: Configuration,
    gold: Map<nat, Attachment>,
    n: nat,
    order: Seq<nat>,
) -> bool {
    let end = oracle_end(kind, c, gold, n, order, c.potential());
    terminal(kind, end) && end.tokens == n && end.arcs == gold
}

/// The transitions of the oracle are legal one after the other and lead to
/// the configuration at which it ends.
pub proof fn lemma_oracle_run(
    kind: SystemKind,
    c: Configuration,
    gold: Map<nat, Attachment>,
    n: nat,
    order: Seq<nat>,
    fuel: nat,
)
    requires
        c.well_formed(),
    ensures
        legal_run(kind, c, oracle_moves(kind, c, gold, n, order, fuel)),
        run(kind, c, oracle_moves(kind, c, gold, n, order, fuel)) == oracle_end(
            kind,
            c,
            gold,
            n,
            order,
            fuel,
        ),
    decreases fuel,
{
    if fuel == 0 || terminal(kind, c) {
    } else {
        match oracle(kind, c, gold, n, order) {
            Some(m) => {
                lemma_oracle_legal(kind, c, gold, n, order);
                lemma_step_regular(kind, c, m);
                let next = step(kind, c, m);
                let rest = oracle_moves(kind, next, gold, n, order, (fuel - 1) as nat);
                lemma_oracle_run(kind, next, gold, n, order, (fuel - 1) as nat);
                lemma_run_after(kind, c, m, rest);
            },
            None => {},
        }
    }
}

/// A run that starts with `m` is the run of the rest from where `m` leads.
pub(crate) proof fn lemma_run_after(kind: SystemKind, c: Configuration, m: Move, rest: Seq<Move>)
    ensures
        run(kind, c, seq![m] + rest) == run(kind, step(kind, c, m), rest),
        legal_run(kind, c, seq![m] + rest) == (crate::model::legal(kind, c, m) && legal_run(
            kind,
            step(kind, c, m),
            rest,
        )),
    decreases rest.len(),
{
    let all = seq![m] + rest;
    let next = step(kind, c, m);
    if rest.len() == 0 {
        assert(all.drop_last() =~= Seq::<Move>::empty());
        assert(all.last() == m);
        assert(run(kind, c, all.drop_last()) == c);
        assert(legal_run(kind, c, all.drop_last()));
        assert(legal_run(kind, c, all) == crate::model::legal(kind, c, m));
        assert(legal_run(kind, next, rest));
    } else {
        lemma_run_after(kind, c, m, rest.drop_last());
        assert(all.drop_last() =~= seq![m] + rest.drop_last());
        assert(all.last() == rest.last());
        assert(legal_run(kind, c, all) == (legal_run(kind, c, all.drop_last())
            && crate::model::legal(kind, run(kind, c, all.drop_last()), all.last())));
        assert(legal_run(kind, next, rest) == (legal_run(kind, next, rest.drop_last())
            && crate::model::legal(kind, run(kind, next, rest.drop_last()), rest.last())));
    }
}

/// Takes the training instances of a parse: each state of it, and the
/// transition that the oracle takes in that state.
pub trait InstanceCollector {
    /// Whether the collector can take instances. A collector that is
    /// always ready need not say so.
    open spec fn ready(&self) -> bool {
        true
    }

    fn collect(&mut self, transition: &Transition, state: &ParserState) -> (taken: Result<
        (),
        Error,
    >)
        requires
            old(self).ready(),
            state.wf(),
        ensures
            final(self).ready(),
    ;
}

impl SystemKind {
    /// The transitions by which this system builds `gold` over `sentence`,
    /// as its static oracle chooses them. A tree that they do not build
    /// exactly, or that the oracle cannot follow to the end of the parse, is
    /// no oracle tree. Every projective tree over the sentence is built, and
    /// under stack-swap every tree over the sentence.
    pub fn oracle_transitions(self, sentence: &[Token], gold: &GoldTree) -> (found: Result<
        Vec<Transition>,
        Error,
    >)
        requires
            gold.wf(),
        ensures
            match found {
                Ok(transitions) => oracle_builds(
                    self,
                    initial(sentence@.len()),
                    gold@,
                    gold.size(),
                    gold.order(),
                ) && listed(transitions@) == oracle_moves(
                    self,
                    initial(sentence@.len()),
                    gold@,
                    gold.size(),
                    gold.order(),
                    initial(sentence@.len()).potential(),
                ),
                Err(e) => e == Error::NonOracleTree && !oracle_builds(
                    self,
                    initial(sentence@.len()),
                    gold@,
                    gold.size(),
                    gold.order(),
                ),
            },
            gold.size() == sentence@.len() && is_projective_tree(gold@, gold.size()) ==> found
                is Ok,
            self == SystemKind::StackSwap && gold.size() == sentence@.len() && is_a_tree(
                gold@,
                gold.size(),
            ) ==> found is Ok,
    {
        proof {
            if gold.size() == sentence@.len() && is_projective_tree(gold@, gold.size()) {
                lemma_projective_gold_tree_is_built(self, *gold);
            } else if self == SystemKind::StackSwap && gold.size() == sentence@.len() && is_a_tree(
                gold@,
                gold.size(),
            ) {
                lemma_swap_gold_tree_is_built(*gold);
            }
        }
        let mut state = ParserState::new(sentence);
        let mut transitions: Vec<Transition> = Vec::new();
        let ghost start = state@;
        let ghost fuel = start.potential();
        assert(listed(transitions@) + oracle_moves(
            self,
            state@,
            gold@,
            gold.size(),
            gold.order(),
            state@.potential(),
        ) =~= oracle_moves(self, start, gold@, gold.size(), gold.order(), fuel));
        while !self.is_terminal(&state)
            invariant
                state.wf(),
                gold.wf(),
                start == initial(sentence@.len()),
                fuel == start.potential(),
                gold.size() == sentence@.len() && (is_projective_tree(gold@, gold.size()) || (self
                    == SystemKind::StackSwap && is_a_tree(gold@, gold.size()))) ==> oracle_builds(
                    self,
                    start,
                    gold@,
                    gold.size(),
                    gold.order(),
                ),
                listed(transitions@) + oracle_moves(
                    self,
                    state@,
                    gold@,
                    gold.size(),
                    gold.order(),
                    state@.potential(),
                ) == oracle_moves(self, start, gold@, gold.size(), gold.order(), fuel),
                oracle_end(self, state@, gold@, gold.size(), gold.order(), state@.potential())
                    == oracle_end(self, start, gold@, gold.size(), gold.order(), fuel),
            decreases state@.potential(),
        {
            let ghost before = state@;
            let ghost taken = listed(transitions@);
            proof {
                lemma_oracle_legal(self, before, gold@, gold.size(), gold.order());
            }
            let next = match self.static_oracle(&state, gold) {
                Ok(t) => t,
                Err(e) => {
                    return Err(e);
                },
            };
            proof {
                lemma_step_regular(self, before, next@);
            }
            let applied = self.apply(&next, &mut state);
            assert(applied is Ok);
            transitions.push(next);
            proof {
                let rest = oracle_moves(
                    self,
                    state@,
                    gold@,
                    gold.size(),
                    gold.order(),
                    state@.potential(),
                );
                assert(listed(transitions@) =~= taken.push(next@));
                assert(taken.push(next@) + rest =~= taken + (seq![next@] + rest));
            }
        }
        let built = state.to_dependency_set();
        if built.same(gold.arcs()) {
            Ok(transitions)
        } else {
            Err(Error::NonOracleTree)
        }
    }
}

/// Replays gold trees and hands the instances to a collector.
pub struct GreedyTrainer<C> {
    system: SystemKind,
    collector: C,
}

impl<C: InstanceCollector> GreedyTrainer<C> {
    /// The transition system whose oracle the trainer replays.
    pub closed spec fn system(&self) -> SystemKind {
        self.system
    }

    /// The collector as it stands.
    pub closed spec fn collected(&self) -> C {
        self.collector
    }

    /// A trainer that hands the instances of `system` to `collector`.
    pub fn new(system: SystemKind, collector: C) -> (trainer: Self)
        ensures
            trainer.system() == system,
            trainer.collected() == collector,
    {
        GreedyTrainer { system, collector }
    }

    /// The collector.
    pub fn collector(&self) -> (collector: &C)
        ensures
            *collector == self.collected(),
    {
        &self.collector
    }

    /// Gives up the trainer for its collector.
    pub fn into_collector(self) -> (collector: C)
        ensures
            collector == self.collected(),
    {
        self.collector
    }

    /// Replays `gold` from `state` on: shows each state and the transition
    /// that the oracle takes in it to the collector, then applies the
    /// transition. The sentence is given up with an error when the oracle
    /// knows no transition, when the arcs at the end are not those of
    /// `gold`, or when the collector fails; the state is then left where
    /// the replay stopped. A tree that cannot be replayed is no oracle
    /// tree; a collector that fails, for whatever reason, is a collector
    /// error. A state whose parse has ended is not shown to the collector:
    /// it is only held against `gold`.
    pub fn parse_state(&mut self, gold: &GoldTree, state: &mut ParserState) -> (done: Result<
        (),
        Error,
    >)
        requires
            old(self).collected().ready(),
            old(state).wf(),
            gold.wf(),
        ensures
            final(self).collected().ready(),
            final(self).system() == old(self).system(),
            final(state).wf(),
            final(state).sentence() == old(state).sentence(),
            done is Ok ==> oracle_builds(
                old(self).system(),
                old(state)@,
                gold@,
                gold.size(),
                gold.order(),
            ) && final(state)@ == oracle_end(
                old(self).system(),
                old(state)@,
                gold@,
                gold.size(),
                gold.order(),
                old(state)@.potential(),
            ),
            !oracle_builds(old(self).system(), old(state)@, gold@, gold.size(), gold.order())
                ==> done is Err,
            on_oracle_way(
                old(self).system(),
                old(state)@,
                final(state)@,
                gold@,
                gold.size(),
                gold.order(),
            ),
            terminal(old(self).system(), final(state)@) ==> done == if final(state)@.arcs == gold@
                && final(state)@.tokens == gold.size() {
                Ok::<(), Error>(())
            } else {
                Err(Error::NonOracleTree)
            },
            !terminal(old(self).system(), final(state)@) ==> done is Err,
            !terminal(old(self).system(), final(state)@) ==> done == if oracle(
                old(self).system(),
                final(state)@,
                gold@,
                gold.size(),
                gold.order(),
            ) is None {
                Err::<(), Error>(Error::NonOracleTree)
            } else {
                Err(Error::Collector)
            },
    {
        let kind = self.system;
        let ghost start = state@;
        let ghost fuel = start.potential();
        let ghost mut taken: nat = 0;
        while !kind.is_terminal(state)
            invariant
                state@ == oracle_end(kind, start, gold@, gold.size(), gold.order(), taken),
                self.system == kind,
                kind == old(self).system(),
                self.collector.ready(),
                state.wf(),
                gold.wf(),
                state.sentence() == old(state).sentence(),
                start == old(state)@,
                fuel == start.potential(),
                oracle_end(kind, state@, gold@, gold.size(), gold.order(), state@.potential())
                    == oracle_end(kind, start, gold@, gold.size(), gold.order(), fuel),
            decreases state@.potential(),
        {
            let ghost before = state@;
            proof {
                lemma_oracle_legal(kind, before, gold@, gold.size(), gold.order());
            }
            let next = match kind.static_oracle(state, gold) {
                Ok(t) => t,
                Err(e) => {
                    return Err(e);
                },
            };
            proof {
                lemma_step_regular(kind, before, next@);
            }
            match self.collector.collect(&next, state) {
                Ok(()) => {},
                Err(_) => {
                    return Err(Error::Collector);
                },
            }
            let applied = kind.apply(&next, state);
            assert(applied is Ok);
            proof {
                lemma_oracle_further(kind, start, gold@, gold.size(), gold.order(), taken);
                taken = taken + 1;
            }
        }
        let built = state.to_dependency_set();
        if built.same(gold.arcs()) {
            Ok(())
        } else {
            Err(Error::NonOracleTree)
        }
    }
}

/// What a run over a treebank makes of the outcome of one sentence: a
/// sentence that was replayed leaves the number of sentences given up as it
/// is, a sentence whose tree is no oracle tree is given up and counted, and
/// any other error ends the run.
pub fn after_sentence(outcome: Result<(), Error>, skipped: usize) -> (next: Result<usize, Error>)
    ensures
        next == match outcome {
            Ok(()) => Ok::<usize, Error>(skipped),
            Err(Error::NonOracleTree) => Ok(
                if skipped < usize::MAX {
                    (skipped + 1) as usize
                } else {
                    skipped
                },
            ),
            Err(e) => Err(e),
        },
{
    match outcome {
        Ok(()) => Ok(skipped),
        Err(Error::NonOracleTree) => {
            if skipped < usize::MAX {
                Ok(skipped + 1)
            } else {
                Ok(skipped)
            }
        },
        Err(e) => Err(e),
    }
}

/// A collector that keeps no instance: it numbers the transitions it is
/// shown, and shows each state to its vectorizer, which may learn from it
/// what values the layers take.
pub struct NoopCollector<V> {
    system: TransitionSystem,
    vectorizer: V,
}

impl<V: InputVectorizer> NoopCollector<V> {
    /// The transition system as it stands.
    pub closed spec fn system(&self) -> TransitionSystem {
        self.system
    }

    /// The vectorizer as it stands.
    pub closed spec fn vectorizer(&self) -> V {
        self.vectorizer
    }

    /// A collector that numbers transitions in the table of `system` and
    /// shows the states to `vectorizer`.
    pub fn new(system: TransitionSystem, vectorizer: V) -> (collector: Self)
        requires
            system.wf(),
        ensures
            collector.system() == system,
            collector.vectorizer() == vectorizer,
            collector.ready(),
    {
        NoopCollector { system, vectorizer }
    }

    /// The transition system with the transitions that were met.
    pub fn transition_system(&self) -> (system: &TransitionSystem)
        ensures
            *system == self.system(),
    {
        &self.system
    }

    /// The vectorizer.
    pub fn input_vectorizer(&self) -> (vectorizer: &V)
        ensures
            *vectorizer == self.vectorizer(),
    {
        &self.vectorizer
    }
}

impl<V: InputVectorizer> InstanceCollector for NoopCollector<V> {
    open spec fn ready(&self) -> bool {
        self.system().wf()
    }

    /// Numbers the transition and shows the state to the vectorizer. A
    /// transition that a frozen table does not list is an error, and the
    /// state is then not shown.
    fn collect(&mut self, transition: &Transition, state: &ParserState) -> (taken: Result<
        (),
        Error,
    >)
        ensures
            final(self).system().spec_kind() == old(self).system().spec_kind(),
            final(self).system().table().frozen() == old(self).system().table().frozen(),
            taken == if old(self).system().table().frozen() && number_of(
                old(self).system().table()@,
                transition@,
            ) is None {
                Err::<(), Error>(Error::FrozenTable)
            } else {
                Ok(())
            },
            taken is Ok ==> number_of(final(self).system().table()@, transition@) is Some,
            final(self).system().table()@ == if number_of(
                old(self).system().table()@,
                transition@,
            ) is None && !old(self).system().table().frozen() {
                old(self).system().table()@.push(transition@)
            } else {
                old(self).system().table()@
            },
    {
        match self.system.add(transition.clone()) {
            Ok(id) => {
                let shown = self.vectorizer.realize(state);
                Ok(())
            },
            Err(e) => Err(e),
        }
    }
}

} // verus!
