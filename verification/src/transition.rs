//! Transitions as values that are stored, compared and handed to guides.

use vstd::prelude::*;
use vstd::std_specs::cmp::PartialEqSpecImpl;
use crate::model::Move;

verus! {

/// One move of a parser. The arc transitions carry the label of the arc they build.
#[derive(Debug)]
pub enum Transition {
    Shift,
    LeftArc(String),
    RightArc(String),
    Reduce,
    Swap,
}

impl View for Transition {
    type V = Move;

    open spec fn view(&self) -> Move {
        match *self {
            Transition::Shift => Move::Shift,
            Transition::LeftArc(label) => Move::LeftArc(label@),
            Transition::RightArc(label) => Move::RightArc(label@),
            Transition::Reduce => Move::Reduce,
            Transition::Swap => Move::Swap,
        }
    }
}

impl Clone for Transition {
    fn clone(&self) -> (copy: Self)
        ensures
            copy == *self,
    {
        match self {
            Transition::Shift => Transition::Shift,
            Transition::LeftArc(label) => Transition::LeftArc(label.clone()),
            Transition::RightArc(label) => Transition::RightArc(label.clone()),
            Transition::Reduce => Transition::Reduce,
            Transition::Swap => Transition::Swap,
        }
    }
}

impl PartialEq for Transition {
    fn eq(&self, other: &Transition) -> (equal: bool) {
        match (self, other) {
            (Transition::Shift, Transition::Shift) => true,
            (Transition::LeftArc(a), Transition::LeftArc(b)) => *a == *b,
            (Transition::RightArc(a), Transition::RightArc(b)) => *a == *b,
            (Transition::Reduce, Transition::Reduce) => true,
            (Transition::Swap, Transition::Swap) => true,
            _ => false,
        }
    }
}

impl PartialEqSpecImpl for Transition {
    open spec fn obeys_eq_spec() -> bool {
        true
    }

    open spec fn eq_spec(&self, other: &Transition) -> bool {
        self@ == other@
    }
}

impl Eq for Transition {

}

impl Transition {
    /// The label of an arc transition.
    pub fn label(&self) -> (label: Option<&String>)
        ensures
            label matches Some(l) ==> self@ == Move::LeftArc(l@) || self@ == Move::RightArc(l@),
            label is None ==> self@ == Move::Shift || self@ == Move::Reduce || self@ == Move::Swap,
    {
        match self {
            Transition::LeftArc(label) => Some(label),
            Transition::RightArc(label) => Some(label),
            _ => None,
        }
    }
}

} // verus!
