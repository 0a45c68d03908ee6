//! The ways in which parsing, training and configuration fail.

use vstd::prelude::*;

verus! {

/// An error of this library.
#[derive(Clone, Copy, Debug, PartialEq, Eq, Structural, Hash)]
pub enum Error {
    /// A transition was to be applied to a state in which it is not legal.
    IllegalTransition,
    /// The static oracle cannot build the gold tree with the transition system at hand.
    NonOracleTree,
    /// A token that has a head was to be given a head.
    AlreadyAttached,
    /// A transition identifier is not in the transition table.
    UnknownLabel,
    /// A token index is not a token of the sentence.
    UnknownToken,
    /// A transition that is not in a frozen transition table was to be added.
    FrozenTable,
    /// A batch guide returned another number of transitions than it was given states.
    BatchMismatch,
    /// A collector of training instances could not take an instance.
    Collector,
    /// A configuration cannot be used as it stands.
    Config,
}

impl Error {
    /// A sentence that describes the error.
    pub fn message(&self) -> (text: &'static str)
        ensures
            text@ == match *self {
                Error::IllegalTransition => "transition is not legal in this state"@,
                Error::NonOracleTree => "gold tree cannot be built by this transition system"@,
                Error::AlreadyAttached => "token already has a head"@,
                Error::UnknownLabel => "transition identifier is not in the table"@,
                Error::UnknownToken => "index is not a token of the sentence"@,
                Error::FrozenTable => "transition table is frozen"@,
                Error::BatchMismatch => "guide returned a wrong number of transitions"@,
                Error::Collector => "collector did not take the instance"@,
                Error::Config => "configuration is not supported"@,
            },
    {
        match self {
            Error::IllegalTransition => "transition is not legal in this state",
            Error::NonOracleTree => "gold tree cannot be built by this transition system",
            Error::AlreadyAttached => "token already has a head",
            Error::UnknownLabel => "transition identifier is not in the table",
            Error::UnknownToken => "index is not a token of the sentence",
            Error::FrozenTable => "transition table is frozen",
            Error::BatchMismatch => "guide returned a wrong number of transitions",
            Error::Collector => "collector did not take the instance",
            Error::Config => "configuration is not supported",
        }
    }
}

} // verus!
