//! A greedy parser: it asks a guide for the next transition until the parse
//! has ended, and never takes a transition back.

use vstd::prelude::*;
use crate::dependency::DependencySet;
use crate::error::Error;
use crate::crossing::lemma_parse_is_projective;
use crate::forest::{lemma_parse_is_a_tree, rooted_tree};
use crate::guide::{BatchGuide, Guide};
use crate::projective::is_projective;
use crate::laws::{
    lemma_active_positions, lemma_reaches_step, lemma_reaches_start, lemma_round_effect,
    lemma_round_potential,
};
use crate::model::{
    initial, legal, reaches, step, terminal, Attachment, Configuration, Move, SystemKind,
};
use crate::state::{ParserState, Token};
use crate::table::listed;
use crate::transition::Transition;

verus! {

/// The configurations of a batch of parser states.
pub open spec fn configurations(states: Seq<ParserState>) -> Seq<Configuration> {
    Seq::new(states.len(), |i: int| states[i]@)
}

/// Positions as integers.
pub open spec fn as_places(positions: Seq<usize>) -> Seq<int> {
    Seq::new(positions.len(), |i: int| positions[i] as int)
}

/// The positions of the parses of a batch that have not ended, in batch order.
pub open spec fn active(kind: SystemKind, batch: Seq<Configuration>) -> Seq<int>
    decreases batch.len(),
{
    if batch.len() == 0 {
        Seq::empty()
    } else if terminal(kind, batch.last()) {
        active(kind, batch.drop_last())
    } else {
        active(kind, batch.drop_last()).push(batch.len() - 1)
    }
}

/// The batch after one round: the parse at position `positions[j]` has taken
/// the transition `chosen[j]`, and the others are as they were.
pub open spec fn round(
    kind: SystemKind,
    batch: Seq<Configuration>,
    positions: Seq<int>,
    chosen: Seq<Move>,
) -> Seq<Configuration>
    decreases positions.len(),
{
    if positions.len() == 0 || chosen.len() == 0 {
        batch
    } else {
        round(kind, batch, positions.drop_last(), chosen.drop_last()).update(
            positions.last(),
            step(kind, batch[positions.last()], chosen.last()),
        )
    }
}

/// Whether each chosen transition is legal for the parse it is meant for.
pub open spec fn round_legal(
    kind: SystemKind,
    batch: Seq<Configuration>,
    positions: Seq<int>,
    chosen: Seq<Move>,
) -> bool {
    &&& positions.len() == chosen.len()
    &&& forall|j: int|
        0 <= j < positions.len() ==> legal(kind, batch[#[trigger] positions[j]], chosen[j])
}

/// Whether a round stopped at `chosen[j]`, the first transition that is not
/// legal, and left the batch as `after`: with the transitions before it
/// applied.
pub open spec fn stopped_at(
    kind: SystemKind,
    batch: Seq<Configuration>,
    positions: Seq<int>,
    chosen: Seq<Move>,
    j: int,
    after: Seq<Configuration>,
) -> bool {
    &&& 0 <= j < positions.len()
    &&& j < chosen.len()
    &&& !legal(kind, batch[positions[j]], chosen[j])
    &&& round_legal(kind, batch, positions.subrange(0, j), chosen.subrange(0, j))
    &&& after == round(kind, batch, positions.subrange(0, j), chosen.subrange(0, j))
}

/// Positions of a batch of `len` parses, each at most once and in batch order.
pub open spec fn ascending(positions: Seq<int>, len: nat) -> bool {
    &&& forall|j: int| 0 <= j < positions.len() ==> 0 <= #[trigger] positions[j] < len
    &&& forall|j: int, k: int| 0 <= j < k < positions.len() ==> positions[j] < positions[k]
}

/// The transitions that the parses of a batch can still apply, taken together.
pub open spec fn total_potential(batch: Seq<Configuration>) -> nat
    decreases batch.len(),
{
    if batch.len() == 0 {
        0
    } else {
        total_potential(batch.drop_last()) + batch.last().potential()
    }
}

/// Whether `arcs` are the arcs of a finished parse of a sentence of `n`
/// tokens: some sequence of legal transitions leads from the initial
/// configuration to a terminal one that holds them.
pub open spec fn parse_of(kind: SystemKind, n: nat, arcs: Map<nat, Attachment>) -> bool {
    exists|end: Configuration| #[trigger]
        reaches(kind, initial(n), end) && terminal(kind, end) && end.arcs == arcs
}

/// Whether `arcs` have the shape of a parse of a sentence of `n` tokens
/// under `kind`: they make a tree of the tokens, if there are any, and they
/// do not cross unless the system swaps.
pub open spec fn well_shaped(kind: SystemKind, n: nat, arcs: Map<nat, Attachment>) -> bool {
    &&& n >= 1 ==> rooted_tree(arcs, n)
    &&& kind != SystemKind::StackSwap ==> is_projective(arcs, n)
}

/// The arcs of a finished parse are well-shaped.
pub proof fn lemma_well_shaped(kind: SystemKind, n: nat, arcs: Map<nat, Attachment>)
    requires
        parse_of(kind, n, arcs),
    ensures
        well_shaped(kind, n, arcs),
{
    if n >= 1 {
        lemma_parse_is_a_tree(kind, n, arcs);
    }
    if kind != SystemKind::StackSwap {
        lemma_parse_is_projective(kind, n, arcs);
    }
}

/// The parse of one sentence when `policy` chooses each transition, for at
/// most `rounds` transitions.
pub open spec fn greedy(
    kind: SystemKind,
    c: Configuration,
    policy: spec_fn(Configuration) -> Move,
    rounds: nat,
) -> Configuration
    decreases rounds,
{
    if rounds == 0 || terminal(kind, c) {
        c
    } else {
        greedy(kind, step(kind, c, policy(c)), policy, (rounds - 1) as nat)
    }
}

/// The transitions that `policy` chooses for the parses at `positions`.
pub open spec fn choices(
    batch: Seq<Configuration>,
    positions: Seq<int>,
    policy: spec_fn(Configuration) -> Move,
) -> Seq<Move> {
    Seq::new(positions.len(), |j: int| policy(batch[positions[j]]))
}

/// The parses of a batch when `policy` chooses each transition, for at most
/// `rounds` rounds: in each round the parses that have not ended are listed
/// in batch order and each takes the transition chosen for it.
pub open spec fn batched(
    kind: SystemKind,
    batch: Seq<Configuration>,
    policy: spec_fn(Configuration) -> Move,
    rounds: nat,
) -> Seq<Configuration>
    decreases rounds,
{
    let positions = active(kind, batch);
    if rounds == 0 || positions.len() == 0 {
        batch
    } else {
        batched(
            kind,
            round(kind, batch, positions, choices(batch, positions, policy)),
            policy,
            (rounds - 1) as nat,
        )
    }
}

/// A greedy dependency parser over the transition system `system`.
pub struct GreedyParser<G> {
    system: SystemKind,
    guide: G,
}

impl<G> GreedyParser<G> {
    /// The transition system that the parser runs.
    pub closed spec fn system(&self) -> SystemKind {
        self.system
    }

    /// A parser that takes its transitions from `guide`.
    pub fn new(system: SystemKind, guide: G) -> (parser: Self)
        ensures
            parser.system() == system,
            parser.guided_by() == guide,
    {
        GreedyParser { system, guide }
    }

    /// The transition system that the parser runs.
    pub fn kind(&self) -> (kind: SystemKind)
        ensures
            kind == self.system(),
    {
        self.system
    }

    /// The guide as it stands.
    pub closed spec fn guided_by(&self) -> G {
        self.guide
    }

    /// The guide.
    pub fn guide(&self) -> (guide: &G)
        ensures
            *guide == self.guided_by(),
    {
        &self.guide
    }
}

/// The positions of the states whose parse has not ended, in order.
pub fn active_positions(kind: SystemKind, states: &Vec<ParserState>) -> (positions: Vec<usize>)
    requires
        forall|i: int| 0 <= i < states.len() ==> (#[trigger] states[i]).wf(),
    ensures
        as_places(positions@) == active(kind, configurations(states@)),
{
    let mut positions: Vec<usize> = Vec::new();
    let mut i: usize = 0;
    while i < states.len()
        invariant
            i <= states.len(),
            forall|k: int| 0 <= k < states.len() ==> (#[trigger] states[k]).wf(),
            as_places(positions@) == active(
                kind,
                configurations(states@.subrange(0, i as int)),
            ),
        decreases states.len() - i,
    {
        let ghost before = configurations(states@.subrange(0, i as int));
        let ghost after = configurations(states@.subrange(0, i + 1));
        assert(after.drop_last() =~= before);
        assert(after.last() == states[i as int]@);
        let ghost listed = as_places(positions@);
        if !kind.is_terminal(&states[i]) {
            positions.push(i);
            assert(as_places(positions@) =~= listed.push(i as int));
        }
        i += 1;
    }
    assert(states@.subrange(0, i as int) =~= states@);
    positions
}

/// Applies one round of a batch: `transitions[j]` to the state at
/// `positions[j]`. Nothing is applied if the numbers differ; the round stops
/// at the first transition that is not legal.
pub fn apply_round(
    kind: SystemKind,
    states: &mut Vec<ParserState>,
    positions: &Vec<usize>,
    transitions: &Vec<Transition>,
) -> (done: Result<(), Error>)
    requires
        forall|i: int| 0 <= i < old(states).len() ==> (#[trigger] old(states)[i]).wf(),
        ascending(as_places(positions@), old(states)@.len()),
    ensures
        final(states).len() == old(states).len(),
        forall|i: int| 0 <= i < final(states).len() ==> (#[trigger] final(states)[i]).wf(),
        forall|i: int|
            0 <= i < final(states).len() ==> (#[trigger] final(states)[i]).sentence() == old(
                states,
            )[i].sentence(),
        done == if positions.len() != transitions.len() {
            Err::<(), Error>(Error::BatchMismatch)
        } else if !round_legal(
            kind,
            configurations(old(states)@),
            as_places(positions@),
            listed(transitions@),
        ) {
            Err(Error::IllegalTransition)
        } else {
            Ok(())
        },
        done is Ok ==> configurations(final(states)@) == round(
            kind,
            configurations(old(states)@),
            as_places(positions@),
            listed(transitions@),
        ),
        done == Err::<(), Error>(Error::BatchMismatch) ==> final(states)@ == old(states)@,
        forall|i: int|
            0 <= i < final(states).len() && old(states)[i]@.consistent(kind)
                ==> (#[trigger] final(states)[i])@.consistent(kind),
        done == Err::<(), Error>(Error::IllegalTransition) ==> exists|j: int| #[trigger]
            stopped_at(
                kind,
                configurations(old(states)@),
                as_places(positions@),
                listed(transitions@),
                j,
                configurations(final(states)@),
            ),
{
    if positions.len() != transitions.len() {
        return Err(Error::BatchMismatch);
    }
    let ghost batch = configurations(states@);
    let ghost places = as_places(positions@);
    let ghost chosen = listed(transitions@);
    let mut j: usize = 0;
    while j < positions.len()
        invariant
            j <= positions.len(),
            positions.len() == transitions.len(),
            states.len() == old(states).len(),
            batch == configurations(old(states)@),
            batch.len() == states.len(),
            places == as_places(positions@),
            chosen == listed(transitions@),
            ascending(places, batch.len()),
            forall|i: int| 0 <= i < states.len() ==> (#[trigger] states[i]).wf(),
            forall|i: int|
                0 <= i < states.len() ==> (#[trigger] states[i]).sentence() == old(
                    states,
                )[i].sentence(),
            forall|i: int|
                0 <= i < states.len() && old(states)[i]@.consistent(kind) ==> (#[trigger] states[i])@.consistent(
                    kind,
                ),
            forall|k: int| 0 <= k < j ==> legal(kind, batch[#[trigger] places[k]], chosen[k]),
            configurations(states@) == round(
                kind,
                batch,
                places.subrange(0, j as int),
                chosen.subrange(0, j as int),
            ),
            forall|k: int|
                j <= k < positions.len() ==> states[#[trigger] places[k]]@ == batch[places[k]],
        decreases positions.len() - j,
    {
        let at = positions[j];
        assert(places[j as int] == at);
        assert(0 <= places[j as int] < batch.len());
        let ghost previous = states@;
        let ghost reached = configurations(states@);
        let applied = kind.apply(&transitions[j], &mut states[at]);
        if applied.is_err() {
            proof {
                assert(!legal(kind, batch[places[j as int]], chosen[j as int]));
                assert(configurations(states@) =~= reached);
                let before = places.subrange(0, j as int);
                assert forall|i: int| 0 <= i < before.len() implies legal(
                    kind,
                    batch[#[trigger] before[i]],
                    chosen.subrange(0, j as int)[i],
                ) by {
                    assert(before[i] == places[i]);
                }
                assert(stopped_at(kind, batch, places, chosen, j as int, configurations(states@)));
            }
            return Err(Error::IllegalTransition);
        }
        proof {
            assert(places.subrange(0, j + 1).drop_last() =~= places.subrange(0, j as int));
            assert(chosen.subrange(0, j + 1).drop_last() =~= chosen.subrange(0, j as int));
            assert(configurations(states@) =~= reached.update(
                at as int,
                step(kind, batch[at as int], chosen[j as int]),
            ));
            assert forall|k: int| j + 1 <= k < positions.len() implies states[#[trigger] places[k]]@
                == batch[places[k]] by {
                assert(places[j as int] < places[k]);
            }
        }
        j += 1;
    }
    assert(places.subrange(0, j as int) =~= places);
    assert(chosen.subrange(0, j as int) =~= chosen);
    Ok(())
}

/// The states at `positions`, in the order of the positions: what a batch
/// guide is shown in a round.
pub fn waiting_states<'a>(states: &'a Vec<ParserState>, positions: &Vec<usize>) -> (waiting: Vec<
    &'a ParserState,
>)
    requires
        ascending(as_places(positions@), states@.len()),
    ensures
        waiting@.len() == positions@.len(),
        forall|j: int|
            0 <= j < waiting@.len() ==> *(#[trigger] waiting@[j]) == states@[positions@[j] as int],
{
    let ghost places = as_places(positions@);
    let mut waiting: Vec<&ParserState> = Vec::new();
    let mut j: usize = 0;
    while j < positions.len()
        invariant
            j <= positions.len(),
            waiting.len() == j,
            places == as_places(positions@),
            ascending(places, states@.len()),
            forall|k: int|
                0 <= k < j ==> *(#[trigger] waiting@[k]) == states@[positions@[k] as int],
        decreases positions.len() - j,
    {
        assert(0 <= places[j as int] < states.len());
        waiting.push(&states[positions[j]]);
        j += 1;
    }
    waiting
}

/// Whether the parse of every sentence has ended before it began: no
/// sentence has a token to shift.
pub open spec fn all_ended(kind: SystemKind, sentences: Seq<Vec<Token>>) -> bool {
    forall|i: int|
        0 <= i < sentences.len() ==> terminal(kind, initial((#[trigger] sentences[i])@.len()))
}

impl<G: Guide> GreedyParser<G> {
    /// Parses `sentence`: asks the guide for a transition and applies it,
    /// until the parse has ended. The parse ends with an error at the first
    /// transition that is not legal. A sentence without tokens is parsed
    /// without the guide.
    pub fn parse(&mut self, sentence: &[Token]) -> (parsed: Result<DependencySet, Error>)
        ensures
            final(self).system() == old(self).system(),
            match parsed {
                Ok(set) => set.size() == sentence@.len() && parse_of(
                    old(self).system(),
                    sentence@.len(),
                    set@,
                ) && well_shaped(old(self).system(), sentence@.len(), set@),
                Err(e) => e == Error::IllegalTransition,
            },
            terminal(old(self).system(), initial(sentence@.len())) ==> (parsed matches Ok(set)
                && set@ == Map::<nat, Attachment>::empty()),
    {
        let kind = self.system;
        let mut state = ParserState::new(sentence);
        let ghost start = state@;
        proof {
            lemma_reaches_start(kind, start);
        }
        while !kind.is_terminal(&state)
            invariant
                self.system == kind,
                kind == old(self).system(),
                state.wf(),
                state@.tokens == sentence@.len(),
                start == initial(sentence@.len()),
                reaches(kind, start, state@),
                state@.consistent(kind),
                terminal(kind, start) ==> state@ == start,
            decreases state@.potential(),
        {
            let transition = self.guide.best_transition(&state);
            let ghost before = state@;
            match kind.apply(&transition, &mut state) {
                Err(e) => {
                    return Err(e);
                },
                Ok(()) => {
                    proof {
                        lemma_reaches_step(kind, start, before, transition@);
                    }
                },
            }
        }
        let set = state.to_dependency_set();
        proof {
            lemma_well_shaped(kind, sentence@.len(), set@);
        }
        Ok(set)
    }
}

impl<G: BatchGuide> GreedyParser<G> {
    /// Parses `sentences` together. In each round the guide is asked once,
    /// for the states that have not ended, in the order of the sentences,
    /// and each of them takes the transition returned for it. The result
    /// holds the arcs of each sentence, in the order of the sentences.
    pub fn parse_batch(&mut self, sentences: &[Vec<Token>]) -> (parsed: Result<
        Vec<DependencySet>,
        Error,
    >)
        ensures
            final(self).system() == old(self).system(),
            match parsed {
                Ok(sets) => sets.len() == sentences@.len() && forall|i: int|
                    0 <= i < sets.len() ==> (#[trigger] sets[i]).size() == sentences@[i].len()
                        && parse_of(old(self).system(), sentences@[i]@.len(), sets[i]@)
                        && well_shaped(old(self).system(), sentences@[i]@.len(), sets[i]@),
                Err(e) => e == Error::IllegalTransition || e == Error::BatchMismatch,
            },
            all_ended(old(self).system(), sentences@) ==> (parsed matches Ok(sets) && forall|i: int|
                0 <= i < sets.len() ==> (#[trigger] sets[i])@ == Map::<nat, Attachment>::empty()),
    {
        let kind = self.system;
        let mut states: Vec<ParserState> = Vec::new();
        let mut i: usize = 0;
        while i < sentences.len()
            invariant
                i <= sentences@.len(),
                states.len() == i,
                forall|k: int| 0 <= k < i ==> (#[trigger] states[k]).wf(),
                forall|k: int|
                    0 <= k < i ==> (#[trigger] states[k])@ == initial(sentences@[k]@.len()),
                forall|k: int| 0 <= k < i ==> (#[trigger] states[k])@.consistent(kind),
            decreases sentences@.len() - i,
        {
            let state = ParserState::new(sentences[i].as_slice());
            states.push(state);
            i += 1;
        }
        proof {
            assert forall|k: int| 0 <= k < states.len() implies reaches(
                kind,
                initial(sentences@[k]@.len()),
                (#[trigger] states[k])@,
            ) by {
                lemma_reaches_start(kind, states[k]@);
            }
        }
        let mut positions = active_positions(kind, &states);
        while positions.len() > 0
            invariant
                self.system == kind,
                kind == old(self).system(),
                states.len() == sentences@.len(),
                forall|k: int| 0 <= k < states.len() ==> (#[trigger] states[k]).wf(),
                forall|k: int|
                    0 <= k < states.len() ==> (#[trigger] states[k])@.tokens == sentences@[k]@.len(),
                forall|k: int|
                    0 <= k < states.len() ==> reaches(
                        kind,
                        initial(sentences@[k]@.len()),
                        (#[trigger] states[k])@,
                    ),
                as_places(positions@) == active(kind, configurations(states@)),
                forall|k: int| 0 <= k < states.len() ==> (#[trigger] states[k])@.consistent(kind),
                all_ended(kind, sentences@) ==> forall|k: int|
                    0 <= k < states.len() ==> (#[trigger] states[k])@ == initial(
                        sentences@[k]@.len(),
                    ),
            decreases total_potential(configurations(states@)),
        {
            let ghost batch = configurations(states@);
            let ghost places = as_places(positions@);
            proof {
                lemma_active_positions(kind, batch);
                // A round is run for a parse that has not ended.
                let first = places[0];
                assert(active(kind, batch).contains(first));
                assert(!terminal(kind, batch[first]));
                assert(batch[first] == states[first]@);
                assert(!all_ended(kind, sentences@));
            }
            let transitions = {
                let waiting = waiting_states(&states, &positions);
                proof {
                    assert forall|k: int| 0 <= k < waiting@.len() implies (#[trigger] waiting@[k]).wf()
                        && waiting@[k]@.partitioned() by {
                        assert(0 <= places[k] < states.len());
                        assert(*waiting@[k] == states@[positions@[k] as int]);
                        assert(states[positions@[k] as int].wf());
                    }
                }
                self.guide.best_transitions(waiting.as_slice())
            };
            let ghost chosen = listed(transitions@);
            match apply_round(kind, &mut states, &positions, &transitions) {
                Err(e) => {
                    return Err(e);
                },
                Ok(()) => {},
            }
            proof {
                lemma_round_effect(kind, batch, places, chosen);
                lemma_round_potential(kind, batch, places, chosen);
                assert forall|k: int| 0 <= k < states.len() implies reaches(
                    kind,
                    initial(sentences@[k]@.len()),
                    (#[trigger] states[k])@,
                ) && states[k]@.tokens == sentences@[k]@.len() by {
                    assert(states[k]@ == configurations(states@)[k]);
                    if places.contains(k) {
                        let j = choose|j: int| 0 <= j < places.len() && places[j] == k;
                        lemma_reaches_step(kind, initial(sentences@[k]@.len()), batch[k], chosen[j]);
                    }
                }
            }
            positions = active_positions(kind, &states);
        }
        proof {
            let batch = configurations(states@);
            lemma_active_positions(kind, batch);
            assert forall|i: int| 0 <= i < states.len() implies terminal(
                kind,
                (#[trigger] states[i])@,
            ) by {
                if !terminal(kind, batch[i]) {
                    assert(active(kind, batch).contains(i));
                }
            }
        }
        let mut sets: Vec<DependencySet> = Vec::new();
        let mut k: usize = 0;
        while k < states.len()
            invariant
                k <= states.len(),
                sets.len() == k,
                states.len() == sentences@.len(),
                forall|i: int| 0 <= i < states.len() ==> (#[trigger] states[i]).wf(),
                forall|i: int|
                    0 <= i < states.len() ==> (#[trigger] states[i])@.tokens == sentences@[i]@.len(),
                forall|i: int|
                    0 <= i < states.len() ==> reaches(
                        kind,
                        initial(sentences@[i]@.len()),
                        (#[trigger] states[i])@,
                    ),
                forall|i: int| 0 <= i < states.len() ==> terminal(kind, (#[trigger] states[i])@),
                all_ended(kind, sentences@) ==> forall|i: int|
                    0 <= i < states.len() ==> (#[trigger] states[i])@ == initial(
                        sentences@[i]@.len(),
                    ),
                all_ended(kind, sentences@) ==> forall|i: int|
                    0 <= i < k ==> (#[trigger] sets[i])@ == Map::<nat, Attachment>::empty(),
                forall|i: int|
                    0 <= i < k ==> (#[trigger] sets[i]).size() == sentences@[i].len() && parse_of(
                        kind,
                        sentences@[i]@.len(),
                        sets[i]@,
                    ) && well_shaped(kind, sentences@[i]@.len(), sets[i]@),
            decreases states.len() - k,
        {
            let set = states[k].to_dependency_set();
            proof {
                assert(reaches(kind, initial(sentences@[k as int]@.len()), states[k as int]@));
                lemma_well_shaped(kind, sentences@[k as int]@.len(), set@);
            }
            sets.push(set);
            k += 1;
        }
        Ok(sets)
    }
}

} // verus!
