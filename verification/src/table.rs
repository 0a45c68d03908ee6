//! The table that numbers transitions. A learner predicts the number of a
//! transition, so a number, once given, stays.

use vstd::prelude::*;
use crate::error::Error;
use crate::model::{Move, SystemKind};
use crate::transition::Transition;

verus! {

/// The labels-as-sequences form of a list of transitions.
pub open spec fn listed(transitions: Seq<Transition>) -> Seq<Move> {
    Seq::new(transitions.len(), |i: int| transitions[i]@)
}

/// The number of `m` in a table that lists `entries`: one more than the
/// first place of `m`, as 0 is no transition's number.
pub open spec fn number_of(entries: Seq<Move>, m: Move) -> Option<nat>
    decreases entries.len(),
{
    if entries.len() == 0 {
        None
    } else if number_of(entries.drop_last(), m) is Some {
        number_of(entries.drop_last(), m)
    } else if entries.last() == m {
        Some(entries.len())
    } else {
        None
    }
}

/// A transition has a number exactly if the table lists it, and the number
/// is that of a place at which it is listed.
pub proof fn lemma_number_of(entries: Seq<Move>, m: Move)
    ensures
        number_of(entries, m) is Some <==> entries.contains(m),
        number_of(entries, m) matches Some(id) ==> 1 <= id <= entries.len() && entries[id - 1] == m,
    decreases entries.len(),
{
    if entries.len() > 0 {
        let rest = entries.drop_last();
        lemma_number_of(rest, m);
        if rest.contains(m) {
            let i = choose|i: int| 0 <= i < rest.len() && rest[i] == m;
            assert(entries[i] == m);
        }
        if entries.contains(m) && entries.last() != m {
            let i = choose|i: int| 0 <= i < entries.len() && entries[i] == m;
            assert(rest[i] == m);
        }
    }
}

/// In a table that lists no transition twice, a transition has the number of its place.
pub proof fn lemma_number_of_place(entries: Seq<Move>, i: int)
    requires
        entries.no_duplicates(),
        0 <= i < entries.len(),
    ensures
        number_of(entries, entries[i]) == Some((i + 1) as nat),
    decreases entries.len(),
{
    let rest = entries.drop_last();
    lemma_number_of(rest, entries[i]);
    if i < entries.len() - 1 {
        assert(rest[i] == entries[i]);
        lemma_number_of_place(rest, i);
    } else {
        if rest.contains(entries[i]) {
            let j = choose|j: int| 0 <= j < rest.len() && rest[j] == entries[i];
            assert(entries[j] == entries[i]);
        }
    }
}

/// The transitions that a parser has met, numbered from 1 in the order in
/// which they were added; 0 is the number of no transition. A table grows
/// until it is frozen.
#[derive(Debug)]
pub struct TransitionTable {
    entries: Vec<Transition>,
    frozen: bool,
}

impl View for TransitionTable {
    type V = Seq<Move>;

    closed spec fn view(&self) -> Seq<Move> {
        listed(self.entries@)
    }
}

impl TransitionTable {
    /// Whether the table takes no new transitions.
    pub closed spec fn frozen(&self) -> bool {
        self.frozen
    }

    /// No transition is listed twice.
    pub open spec fn wf(&self) -> bool {
        self@.no_duplicates()
    }

    /// A table lists no more transitions than the machine can count.
    pub proof fn lemma_countable(&self)
        ensures
            self@.len() <= usize::MAX,
    {
        assert(self@.len() == self.entries.len());
    }

    /// An empty table that grows.
    pub fn new() -> (table: TransitionTable)
        ensures
            table.wf(),
            table@ == Seq::<Move>::empty(),
            !table.frozen(),
    {
        let table = TransitionTable { entries: Vec::new(), frozen: false };
        assert(table@ =~= Seq::<Move>::empty());
        table
    }

    /// The number of transitions in the table. Their numbers are `1..=len()`.
    pub fn len(&self) -> (n: usize)
        ensures
            n == self@.len(),
    {
        self.entries.len()
    }

    /// Whether the table takes no new transitions.
    pub fn is_frozen(&self) -> (frozen: bool)
        ensures
            frozen == self.frozen(),
    {
        self.frozen
    }

    /// Makes the table take no new transitions from now on.
    pub fn freeze(&mut self)
        ensures
            final(self).frozen(),
            final(self)@ == old(self)@,
    {
        self.frozen = true;
    }

    /// The number of `transition`, if the table lists it.
    pub fn lookup(&self, transition: &Transition) -> (number: Option<usize>)
        ensures
            match number {
                Some(id) => number_of(self@, transition@) == Some(id as nat),
                None => number_of(self@, transition@) is None,
            },
    {
        let mut i: usize = 0;
        assert(self@.subrange(0, 0) =~= Seq::<Move>::empty());
        while i < self.entries.len()
            invariant
                i <= self.entries.len(),
                number_of(self@.subrange(0, i as int), transition@) is None,
            decreases self.entries.len() - i,
        {
            let ghost seen = self@.subrange(0, i + 1);
            assert(seen.drop_last() =~= self@.subrange(0, i as int));
            assert(seen.last() == self.entries[i as int]@);
            if self.entries[i] == *transition {
                proof {
                    lemma_number_kept(self@, i + 1, transition@);
                }
                return Some(i + 1);
            }
            i += 1;
        }
        assert(self@.subrange(0, i as int) =~= self@);
        None
    }

    /// The transition with the number `id`, if there is one.
    pub fn value(&self, id: usize) -> (transition: Option<&Transition>)
        ensures
            match transition {
                Some(t) => 1 <= id <= self@.len() && t@ == self@[id - 1],
                None => !(1 <= id <= self@.len()),
            },
    {
        if id >= 1 && id <= self.entries.len() {
            Some(&self.entries[id - 1])
        } else {
            None
        }
    }

    /// The number of `transition`. A transition that the table does not list
    /// gets the next number, unless the table is frozen.
    pub fn add(&mut self, transition: Transition) -> (number: Result<usize, Error>)
        requires
            old(self).wf(),
        ensures
            final(self).wf(),
            final(self).frozen() == old(self).frozen(),
            match number_of(old(self)@, transition@) {
                Some(id) => number == Ok::<usize, Error>(id as usize) && final(self)@ == old(self)@,
                None => if old(self).frozen() {
                    number == Err::<usize, Error>(Error::FrozenTable) && final(self)@ == old(self)@
                } else {
                    number == Ok::<usize, Error>((old(self)@.len() + 1) as usize) && final(self)@
                        == old(self)@.push(transition@)
                },
            },
            number matches Ok(id) ==> number_of(final(self)@, transition@) == Some(id as nat),
    {
        match self.lookup(&transition) {
            Some(id) => Ok(id),
            None => {
                if self.frozen {
                    return Err(Error::FrozenTable);
                }
                proof {
                    lemma_number_of(self@, transition@);
                }
                self.entries.push(transition);
                proof {
                    assert(self@ =~= old(self)@.push(transition@));
                    assert(self@.drop_last() =~= old(self)@);
                }
                Ok(self.entries.len())
            },
        }
    }

    /// The transitions in the order of their numbers.
    pub fn to_list(&self) -> (list: Vec<Transition>)
        ensures
            listed(list@) == self@,
    {
        let mut list: Vec<Transition> = Vec::new();
        let mut i: usize = 0;
        while i < self.entries.len()
            invariant
                i <= self.entries.len(),
                list@ == self.entries@.subrange(0, i as int),
            decreases self.entries.len() - i,
        {
            list.push(self.entries[i].clone());
            assert(list@ =~= self.entries@.subrange(0, i + 1));
            i += 1;
        }
        assert(list@ =~= self.entries@);
        list
    }

    /// The frozen table that numbers the transitions of `list` by their
    /// places. A list that holds a transition twice makes no table.
    pub fn from_list(list: Vec<Transition>) -> (table: Result<TransitionTable, Error>)
        ensures
            match table {
                Ok(t) => t.wf() && t.frozen() && t@ == listed(list@),
                Err(e) => e == Error::Config && !listed(list@).no_duplicates(),
            },
            table is Ok <==> listed(list@).no_duplicates(),
    {
        let ghost all = listed(list@);
        let mut i: usize = 0;
        while i < list.len()
            invariant
                i <= list.len(),
                all == listed(list@),
                forall|a: int, b: int| 0 <= a < b < i ==> all[a] != all[b],
            decreases list.len() - i,
        {
            let mut j: usize = 0;
            while j < i
                invariant
                    j <= i,
                    i < list.len(),
                    all == listed(list@),
                    forall|a: int| 0 <= a < j ==> all[a] != all[i as int],
                decreases i - j,
            {
                if list[j] == list[i] {
                    assert(all[j as int] == all[i as int]);
                    return Err(Error::Config);
                }
                j += 1;
            }
            i += 1;
        }
        Ok(TransitionTable { entries: list, frozen: true })
    }
}

/// A number that a transition has among the first entries of a table is its
/// number in the whole table.
pub(crate) proof fn lemma_number_kept(entries: Seq<Move>, k: int, m: Move)
    requires
        0 <= k <= entries.len(),
        number_of(entries.subrange(0, k), m) is Some,
    ensures
        number_of(entries, m) == number_of(entries.subrange(0, k), m),
    decreases entries.len() - k,
{
    if k < entries.len() {
        assert(entries.drop_last().subrange(0, k) =~= entries.subrange(0, k));
        lemma_number_kept(entries.drop_last(), k, m);
    } else {
        assert(entries.subrange(0, k) =~= entries);
    }
}

/// A transition system: its rules and the numbers of its transitions.
#[derive(Debug)]
pub struct TransitionSystem {
    kind: SystemKind,
    transitions: TransitionTable,
}

impl TransitionSystem {
    /// The rules of the system.
    pub closed spec fn spec_kind(&self) -> SystemKind {
        self.kind
    }

    /// The numbered transitions.
    pub closed spec fn table(&self) -> TransitionTable {
        self.transitions
    }

    /// No transition is numbered twice.
    pub open spec fn wf(&self) -> bool {
        self.table().wf()
    }

    /// A system with the rules `kind` and an empty table that grows.
    pub fn new(kind: SystemKind) -> (system: TransitionSystem)
        ensures
            system.wf(),
            system.spec_kind() == kind,
            system.table()@ == Seq::<Move>::empty(),
            !system.table().frozen(),
    {
        TransitionSystem { kind, transitions: TransitionTable::new() }
    }

    /// The rules of the system.
    #[verifier::when_used_as_spec(spec_kind)]
    pub fn kind(&self) -> (kind: SystemKind)
        ensures
            kind == self.spec_kind(),
    {
        self.kind
    }

    /// The numbered transitions.
    pub fn transitions(&self) -> (table: &TransitionTable)
        ensures
            *table == self.table(),
    {
        &self.transitions
    }

    /// The number of `transition`; see `TransitionTable::add`.
    pub fn add(&mut self, transition: Transition) -> (number: Result<usize, Error>)
        requires
            old(self).wf(),
        ensures
            final(self).wf(),
            final(self).spec_kind() == old(self).spec_kind(),
            final(self).table().frozen() == old(self).table().frozen(),
            match number_of(old(self).table()@, transition@) {
                Some(id) => number == Ok::<usize, Error>(id as usize) && final(self).table()@
                    == old(self).table()@,
                None => if old(self).table().frozen() {
                    number == Err::<usize, Error>(Error::FrozenTable) && final(self).table()@
                        == old(self).table()@
                } else {
                    number == Ok::<usize, Error>((old(self).table()@.len() + 1) as usize)
                        && final(self).table()@ == old(self).table()@.push(transition@)
                },
            },
            number matches Ok(id) ==> number_of(final(self).table()@, transition@) == Some(
                id as nat,
            ),
    {
        self.transitions.add(transition)
    }

    /// Ends the phase in which the table grows.
    pub fn freeze(&mut self)
        ensures
            final(self).table().frozen(),
            final(self).table()@ == old(self).table()@,
            final(self).spec_kind() == old(self).spec_kind(),
    {
        self.transitions.freeze();
    }

    /// The system as plain values, for storing it: its rules and its
    /// transitions in the order of their numbers.
    pub fn to_parts(&self) -> (parts: (SystemKind, Vec<Transition>))
        ensures
            parts.0 == self.spec_kind(),
            listed(parts.1@) == self.table()@,
    {
        (self.kind, self.transitions.to_list())
    }

    /// The system that was stored as `kind` and `list`, frozen: each
    /// transition has the number of its place in `list`.
    pub fn from_parts(kind: SystemKind, list: Vec<Transition>) -> (system: Result<
        TransitionSystem,
        Error,
    >)
        ensures
            match system {
                Ok(s) => s.wf() && s.spec_kind() == kind && s.table().frozen() && s.table()@
                    == listed(list@),
                Err(e) => e == Error::Config,
            },
            system is Ok <==> listed(list@).no_duplicates(),
    {
        match TransitionTable::from_list(list) {
            Ok(transitions) => Ok(TransitionSystem { kind, transitions }),
            Err(e) => Err(e),
        }
    }
}

/// Storing a system and loading it again keeps every number: a system that
/// was loaded from the parts of another has the same rules, and gives each
/// transition the number it had and each number the transition it had.
pub proof fn lemma_reload_keeps_numbers(
    stored: TransitionSystem,
    parts: (SystemKind, Vec<Transition>),
    loaded: TransitionSystem,
)
    requires
        parts.0 == stored.spec_kind(),
        listed(parts.1@) == stored.table()@,
        loaded.spec_kind() == parts.0,
        loaded.table()@ == listed(parts.1@),
    ensures
        loaded.spec_kind() == stored.spec_kind(),
        loaded.table()@ == stored.table()@,
        forall|m: Move| number_of(loaded.table()@, m) == number_of(stored.table()@, m),
{
}

} // verus!
