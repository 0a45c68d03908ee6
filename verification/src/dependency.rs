//! Arcs and sets of arcs: what a parse builds and what a gold tree is.

use vstd::prelude::*;
use vstd::std_specs::cmp::PartialEqSpecImpl;
use crate::error::Error;
use crate::model::Attachment;

verus! {

/// The head of a token and the relation that holds between them.
#[derive(Debug)]
pub struct Dependency {
    pub head: usize,
    pub relation: String,
}

impl View for Dependency {
    type V = Attachment;

    open spec fn view(&self) -> Attachment {
        (self.head as nat, self.relation@)
    }
}

impl Clone for Dependency {
    fn clone(&self) -> (copy: Self)
        ensures
            copy == *self,
    {
        Dependency { head: self.head, relation: self.relation.clone() }
    }
}

impl PartialEq for Dependency {
    fn eq(&self, other: &Dependency) -> (equal: bool) {
        self.head == other.head && self.relation == other.relation
    }
}

impl PartialEqSpecImpl for Dependency {
    open spec fn obeys_eq_spec() -> bool {
        true
    }

    open spec fn eq_spec(&self, other: &Dependency) -> bool {
        self@ == other@
    }
}

impl Eq for Dependency {

}

/// The arcs that a table of heads holds: entry `m - 1` is the head of token `m`.
pub open spec fn attachments(heads: Seq<Option<Dependency>>) -> Map<nat, Attachment> {
    Map::new(
        |m: nat| 1 <= m <= heads.len() && heads[m - 1] is Some,
        |m: nat| heads[m - 1]->0@,
    )
}

/// Writing the head of token `m` into the table adds the arc to the map.
pub(crate) proof fn lemma_attachments_update(heads: Seq<Option<Dependency>>, m: nat, d: Dependency)
    requires
        1 <= m <= heads.len(),
    ensures
        attachments(heads.update(m - 1, Some(d))) == attachments(heads).insert(m, d@),
{
    assert(attachments(heads.update(m - 1, Some(d))) =~= attachments(heads).insert(m, d@));
}

/// A copy of a table of heads.
pub fn copy_heads(heads: &Vec<Option<Dependency>>) -> (copy: Vec<Option<Dependency>>)
    ensures
        copy@ == heads@,
{
    let mut copy: Vec<Option<Dependency>> = Vec::new();
    let mut i: usize = 0;
    while i < heads.len()
        invariant
            i <= heads.len(),
            copy@ == heads@.subrange(0, i as int),
        decreases heads.len() - i,
    {
        let entry = match &heads[i] {
            Some(d) => Some(d.clone()),
            None => None,
        };
        copy.push(entry);
        assert(copy@ =~= heads@.subrange(0, i + 1));
        i += 1;
    }
    assert(copy@ =~= heads@);
    copy
}

/// The arcs of a sentence: for each token that has one, its head and the
/// relation. Tokens are numbered from 1.
#[derive(Debug)]
pub struct DependencySet {
    entries: Vec<Option<Dependency>>,
}

impl View for DependencySet {
    type V = Map<nat, Attachment>;

    closed spec fn view(&self) -> Map<nat, Attachment> {
        attachments(self.entries@)
    }
}

impl DependencySet {
    /// The number of tokens of the sentence.
    pub closed spec fn size(&self) -> nat {
        self.entries.len() as nat
    }

    /// Only tokens of the sentence have a head.
    pub proof fn lemma_domain(&self)
        ensures
            forall|m: nat| #[trigger] self@.dom().contains(m) ==> 1 <= m <= self.size(),
    {
    }

    /// The empty set of arcs over a sentence of `tokens` tokens.
    pub fn new(tokens: usize) -> (set: DependencySet)
        ensures
            set.size() == tokens,
            set@ == Map::<nat, Attachment>::empty(),
    {
        let mut entries: Vec<Option<Dependency>> = Vec::new();
        let mut i: usize = 0;
        while i < tokens
            invariant
                i <= tokens,
                entries.len() == i,
                forall|j: int| 0 <= j < i ==> entries[j] is None,
            decreases tokens - i,
        {
            entries.push(None);
            i += 1;
        }
        assert(attachments(entries@) =~= Map::<nat, Attachment>::empty());
        DependencySet { entries }
    }

    /// The set of arcs that a table of heads holds.
    pub(crate) fn from_heads(entries: Vec<Option<Dependency>>) -> (set: DependencySet)
        ensures
            set.size() == entries.len(),
            set@ == attachments(entries@),
    {
        DependencySet { entries }
    }

    /// The number of tokens of the sentence.
    pub fn tokens(&self) -> (n: usize)
        ensures
            n == self.size(),
    {
        self.entries.len()
    }

    /// The head of `modifier` and its relation, if it has a head.
    pub fn get(&self, modifier: usize) -> (found: Option<&Dependency>)
        ensures
            match found {
                Some(d) => self@.dom().contains(modifier as nat) && self@[modifier as nat] == d@,
                None => !self@.dom().contains(modifier as nat),
            },
    {
        if modifier == 0 || modifier > self.entries.len() {
            None
        } else {
            self.entries[modifier - 1].as_ref()
        }
    }

    /// Adds the arc from `head` to `modifier`. A token has one head: the arc
    /// of a token that has one is never replaced.
    pub fn insert(&mut self, modifier: usize, head: usize, relation: String) -> (done: Result<
        (),
        Error,
    >)
        ensures
            final(self).size() == old(self).size(),
            done == if !(1 <= modifier <= old(self).size() && 1 <= head <= old(self).size()) {
                Err::<(), Error>(Error::UnknownToken)
            } else if old(self)@.dom().contains(modifier as nat) {
                Err(Error::AlreadyAttached)
            } else {
                Ok(())
            },
            final(self)@ == if done is Ok {
                old(self)@.insert(modifier as nat, (head as nat, relation@))
            } else {
                old(self)@
            },
    {
        let n = self.entries.len();
        if modifier == 0 || modifier > n || head == 0 || head > n {
            return Err(Error::UnknownToken);
        }
        if self.entries[modifier - 1].is_some() {
            return Err(Error::AlreadyAttached);
        }
        let d = Dependency { head, relation };
        proof {
            lemma_attachments_update(self.entries@, modifier as nat, d);
        }
        self.entries.set(modifier - 1, Some(d));
        Ok(())
    }

    /// Whether both sets are over sentences of one length and hold the same arcs.
    pub fn same(&self, other: &DependencySet) -> (equal: bool)
        ensures
            equal == (self.size() == other.size() && self@ == other@),
    {
        if self.entries.len() != other.entries.len() {
            return false;
        }
        let mut i: usize = 0;
        while i < self.entries.len()
            invariant
                i <= self.entries.len(),
                self.entries.len() == other.entries.len(),
                forall|j: int|
                    0 <= j < i ==> (#[trigger] self.entries[j] is Some) == (other.entries[j] is Some)
                        && (self.entries[j] is Some ==> self.entries[j]->0@ == other.entries[j]->0@),
            decreases self.entries.len() - i,
        {
            let alike = match (&self.entries[i], &other.entries[i]) {
                (Some(a), Some(b)) => *a == *b,
                (None, None) => true,
                _ => false,
            };
            if !alike {
                assert(self@.dom().contains((i + 1) as nat) != other@.dom().contains(
                    (i + 1) as nat,
                ) || self@[(i + 1) as nat] != other@[(i + 1) as nat]);
                return false;
            }
            i += 1;
        }
        assert forall|m: nat| self@.dom().contains(m) == other@.dom().contains(m) && (
            self@.dom().contains(m) ==> self@[m] == other@[m]) by {
            if 1 <= m <= self.entries.len() {
                assert((self.entries[m - 1] is Some) == (other.entries[m - 1] is Some));
            }
        }
        assert(self@ =~= other@);
        true
    }
}

} // verus!
