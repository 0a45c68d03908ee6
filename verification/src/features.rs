//! The addresses from which a model takes its input, as far as the shapes
//! of the model depend on them.

use vstd::prelude::*;
use crate::error::Error;
use crate::layers::{Layer, LayerMap};
use crate::model::Configuration;
use crate::state::ParserState;
use crate::table::TransitionTable;

verus! {

/// The layer that an address reads.
#[derive(Clone, Copy, Debug, PartialEq, Eq, Structural, Hash)]
pub enum AddressLayer {
    Token,
    Tag,
    DepRel,
    Feature,
    /// The characters of a token: so many of its prefix and of its suffix.
    Char(usize, usize),
}

/// A place in the parser state.
#[derive(Clone, Copy, Debug, PartialEq, Eq, Structural, Hash)]
pub enum Source {
    Stack(usize),
    Buffer(usize),
    LDep(usize),
    RDep(usize),
}

/// A value of the input: where it is found, and the layer that is read there.
#[derive(Debug)]
pub struct AddressedValue {
    pub address: Vec<Source>,
    pub layer: AddressLayer,
}

/// The values of the input of a model.
#[derive(Debug)]
pub struct AddressedValues(pub Vec<AddressedValue>);

/// Whether every character layer among `layers` reads `prefix` characters
/// of the prefix and `suffix` of the suffix.
pub open spec fn uniform_affixes(layers: Seq<AddressLayer>, prefix: usize, suffix: usize) -> bool {
    forall|i: int|
        0 <= i < layers.len() ==> (#[trigger] layers[i] matches AddressLayer::Char(p, s) ==> p
            == prefix && s == suffix)
}

/// Whether some layer among `layers` is a character layer.
pub open spec fn has_affixes(layers: Seq<AddressLayer>) -> bool {
    exists|i: int| 0 <= i < layers.len() && #[trigger] layers[i] is Char
}

/// The layers of a list of addressed values.
pub open spec fn layers_of(values: Seq<AddressedValue>) -> Seq<AddressLayer> {
    Seq::new(values.len(), |i: int| values[i].layer)
}

/// The prefix and suffix lengths of the character layers of `addrs`. A model
/// has one pair of lengths: inputs without a character layer, and inputs
/// whose character layers differ in a length, are not supported.
pub fn affix_lengths(addrs: &AddressedValues) -> (lengths: Result<(usize, usize), Error>)
    ensures
        match lengths {
            Ok((prefix, suffix)) => has_affixes(layers_of(addrs.0@)) && uniform_affixes(
                layers_of(addrs.0@),
                prefix,
                suffix,
            ),
            Err(e) => e == Error::Config && !(exists|prefix: usize, suffix: usize|
                has_affixes(layers_of(addrs.0@)) && uniform_affixes(
                    layers_of(addrs.0@),
                    prefix,
                    suffix,
                )),
        },
{
    let ghost layers = layers_of(addrs.0@);
    let mut found: Option<(usize, usize)> = None;
    let mut i: usize = 0;
    while i < addrs.0.len()
        invariant
            i <= addrs.0.len(),
            layers == layers_of(addrs.0@),
            match found {
                Some((p, s)) => has_affixes(layers.subrange(0, i as int)) && uniform_affixes(
                    layers.subrange(0, i as int),
                    p,
                    s,
                ),
                None => !has_affixes(layers.subrange(0, i as int)),
            },
        decreases addrs.0.len() - i,
    {
        let ghost seen = layers.subrange(0, i as int);
        let ghost more = layers.subrange(0, i + 1);
        assert(forall|k: int| 0 <= k < i ==> seen[k] == more[k]);
        assert(more[i as int] == addrs.0[i as int].layer);
        match addrs.0[i].layer {
            AddressLayer::Char(p, s) => {
                match found {
                    Some((p0, s0)) => {
                        if p != p0 || s != s0 {
                            proof {
                                let k = choose|k: int| 0 <= k < seen.len() && #[trigger] seen[k] is Char;
                                assert(layers[k] == seen[k]);
                                assert(layers[i as int] is Char);
                            }
                            return Err(Error::Config);
                        }
                        proof {
                            let k = choose|k: int| 0 <= k < seen.len() && #[trigger] seen[k] is Char;
                            assert(more[k] is Char);
                        }
                    },
                    None => {
                        assert(more[i as int] is Char);
                        assert forall|k: int| 0 <= k < more.len() implies (#[trigger] more[k] matches AddressLayer::Char(
                            a,
                            b,
                        ) ==> a == p && b == s) by {
                            if k < i {
                                assert(seen[k] == more[k]);
                            }
                        }
                        found = Some((p, s));
                    },
                }
            },
            _ => {
                if found.is_some() {
                    let ghost k = choose|k: int| 0 <= k < seen.len() && #[trigger] seen[k] is Char;
                    assert(more[k] is Char);
                } else {
                    assert forall|k: int| 0 <= k < more.len() implies !(#[trigger] more[k] is Char) by {
                        if k < i {
                            assert(seen[k] == more[k]);
                        }
                    }
                }
            },
        }
        i += 1;
    }
    assert(layers.subrange(0, i as int) =~= layers);
    match found {
        Some(pair) => Ok(pair),
        None => Err(Error::Config),
    }
}

/// Whether `m` is attached to `head` in `c`.
pub open spec fn is_dependent(c: Configuration, m: nat, head: nat) -> bool {
    c.arcs.dom().contains(m) && c.arcs[m].0 == head
}

/// The dependent of `head` that has `n` dependents of `head` on its left
/// among the tokens from `from` up to `head`: dependent `n` from the left.
pub open spec fn left_dependent(c: Configuration, head: nat, from: nat, n: nat) -> Option<nat>
    decreases head - from,
{
    if from >= head {
        None
    } else if is_dependent(c, from, head) {
        if n == 0 {
            Some(from)
        } else {
            left_dependent(c, head, from + 1, (n - 1) as nat)
        }
    } else {
        left_dependent(c, head, from + 1, n)
    }
}

/// The dependent of `head` that has `n` dependents of `head` on its right
/// among the tokens from `from` down to `head`: dependent `n` from the right.
pub open spec fn right_dependent(c: Configuration, head: nat, from: nat, n: nat) -> Option<nat>
    decreases from,
{
    if from <= head {
        None
    } else if is_dependent(c, from, head) {
        if n == 0 {
            Some(from)
        } else {
            right_dependent(c, head, (from - 1) as nat, (n - 1) as nat)
        }
    } else {
        right_dependent(c, head, (from - 1) as nat, n)
    }
}

/// The token that `source` names, as seen from the token `at`: a place on
/// the stack, counted from the top, or in the buffer, counted from the
/// front, or a dependent of `at`, counted from the left or from the right
/// of the sentence.
pub open spec fn found(c: Configuration, at: Option<nat>, source: Source) -> Option<nat> {
    match source {
        Source::Stack(i) => if i < c.stack.len() {
            Some(c.stack[c.stack.len() - 1 - i])
        } else {
            None
        },
        Source::Buffer(i) => if i < c.buffer.len() {
            Some(c.buffer[i as int])
        } else {
            None
        },
        Source::LDep(i) => match at {
            Some(t) => left_dependent(c, t, 1, i as nat),
            None => None,
        },
        Source::RDep(i) => match at {
            Some(t) => right_dependent(c, t, c.tokens, i as nat),
            None => None,
        },
    }
}

/// The token at the address `address`, which is read source by source.
pub open spec fn addressed(c: Configuration, address: Seq<Source>) -> Option<nat>
    decreases address.len(),
{
    if address.len() == 0 {
        None
    } else {
        found(c, addressed(c, address.drop_last()), address.last())
    }
}

fn dependent_from_left(state: &ParserState, head: usize, n: usize) -> (token: Option<usize>)
    requires
        state.wf(),
    ensures
        match token {
            Some(t) => left_dependent(state@, head as nat, 1, n as nat) == Some(t as nat),
            None => left_dependent(state@, head as nat, 1, n as nat) is None,
        },
{
    let mut m: usize = 1;
    let mut left: usize = n;
    while m < head
        invariant
            1 <= m,
            state.wf(),
            left_dependent(state@, head as nat, 1, n as nat) == left_dependent(
                state@,
                head as nat,
                m as nat,
                left as nat,
            ),
        decreases head - m,
    {
        let hangs = match state.head(m) {
            Some(d) => d.head == head,
            None => false,
        };
        if hangs {
            if left == 0 {
                return Some(m);
            }
            left -= 1;
        }
        m += 1;
    }
    None
}

fn dependent_from_right(state: &ParserState, head: usize, n: usize) -> (token: Option<usize>)
    requires
        state.wf(),
    ensures
        match token {
            Some(t) => right_dependent(state@, head as nat, state@.tokens, n as nat) == Some(
                t as nat,
            ),
            None => right_dependent(state@, head as nat, state@.tokens, n as nat) is None,
        },
{
    let mut m: usize = state.len();
    let mut left: usize = n;
    while m > head
        invariant
            state.wf(),
            right_dependent(state@, head as nat, state@.tokens, n as nat) == right_dependent(
                state@,
                head as nat,
                m as nat,
                left as nat,
            ),
        decreases m,
    {
        let hangs = match state.head(m) {
            Some(d) => d.head == head,
            None => false,
        };
        if hangs {
            if left == 0 {
                return Some(m);
            }
            left -= 1;
        }
        m -= 1;
    }
    None
}

impl ParserState {
    /// The token that `source` names, as seen from the token `at`.
    pub fn source(&self, at: Option<usize>, source: Source) -> (token: Option<usize>)
        requires
            self.wf(),
        ensures
            match token {
                Some(t) => found(self@, as_token(at), source) == Some(t as nat),
                None => found(self@, as_token(at), source) is None,
            },
    {
        match source {
            Source::Stack(i) => self.peek_stack(i),
            Source::Buffer(i) => self.peek_buffer(i),
            Source::LDep(i) => match at {
                Some(t) => dependent_from_left(self, t, i),
                None => None,
            },
            Source::RDep(i) => match at {
                Some(t) => dependent_from_right(self, t, i),
                None => None,
            },
        }
    }

    /// The token at the address `address`, if there is one.
    pub fn address(&self, address: &Vec<Source>) -> (token: Option<usize>)
        requires
            self.wf(),
        ensures
            match token {
                Some(t) => addressed(self@, address@) == Some(t as nat),
                None => addressed(self@, address@) is None,
            },
    {
        let mut at: Option<usize> = None;
        let mut i: usize = 0;
        assert(address@.subrange(0, 0) =~= Seq::<Source>::empty());
        while i < address.len()
            invariant
                i <= address.len(),
                self.wf(),
                as_token(at) == addressed(self@, address@.subrange(0, i as int)),
            decreases address.len() - i,
        {
            let ghost more = address@.subrange(0, i + 1);
            assert(more.drop_last() =~= address@.subrange(0, i as int));
            assert(more.last() == address[i as int]);
            at = self.source(at, address[i]);
            i += 1;
        }
        assert(address@.subrange(0, i as int) =~= address@);
        at
    }
}

/// A token index as a natural number.
pub open spec fn as_token(at: Option<usize>) -> Option<nat> {
    match at {
        Some(t) => Some(t as nat),
        None => None,
    }
}

/// The layer of the input to which the values of an address layer go.
pub open spec fn layer_of(layer: AddressLayer) -> Layer {
    match layer {
        AddressLayer::Token => Layer::Token,
        AddressLayer::Tag => Layer::Tag,
        AddressLayer::DepRel => Layer::DepRel,
        AddressLayer::Feature => Layer::Feature,
        AddressLayer::Char(_, _) => Layer::Char,
    }
}

/// The number of values that an address layer gives: one, or for
/// characters as many as are read of the prefix and of the suffix.
pub open spec fn width_of(layer: AddressLayer) -> nat {
    match layer {
        AddressLayer::Char(prefix, suffix) => (prefix + suffix) as nat,
        _ => 1,
    }
}

/// The length of the vector of `layer` for inputs that read `layers`.
pub open spec fn layer_size(layers: Seq<AddressLayer>, layer: Layer) -> nat
    decreases layers.len(),
{
    if layers.len() == 0 {
        0
    } else {
        layer_size(layers.drop_last(), layer) + if layer_of(layers.last()) == layer {
            width_of(layers.last())
        } else {
            0
        }
    }
}

proof fn lemma_layer_size_grows(layers: Seq<AddressLayer>, k: int, layer: Layer)
    requires
        0 <= k <= layers.len(),
    ensures
        layer_size(layers.subrange(0, k), layer) <= layer_size(layers, layer),
    decreases layers.len() - k,
{
    if k < layers.len() {
        assert(layers.drop_last().subrange(0, k) =~= layers.subrange(0, k));
        lemma_layer_size_grows(layers.drop_last(), k, layer);
    } else {
        assert(layers.subrange(0, k) =~= layers);
    }
}

impl AddressedValues {
    /// The length of the vector of each layer: the number of values that
    /// the addresses of the layer give. There is none if the machine cannot
    /// count the values of a layer.
    pub fn layer_sizes(&self) -> (sizes: Option<LayerMap<usize>>)
        ensures
            match sizes {
                Some(s) => forall|layer: Layer|
                    #[trigger] s.at(layer) == layer_size(layers_of(self.0@), layer),
                None => exists|layer: Layer|
                    #[trigger] layer_size(layers_of(self.0@), layer) > usize::MAX,
            },
    {
        let ghost layers = layers_of(self.0@);
        let mut sizes = LayerMap { token: 0usize, tag: 0usize, deprel: 0usize, feature: 0usize, chars: 0usize };
        let mut i: usize = 0;
        assert(layers.subrange(0, 0) =~= Seq::<AddressLayer>::empty());
        while i < self.0.len()
            invariant
                i <= self.0.len(),
                layers == layers_of(self.0@),
                forall|layer: Layer|
                    #[trigger] sizes.at(layer) == layer_size(layers.subrange(0, i as int), layer),
            decreases self.0.len() - i,
        {
            let ghost seen = layers.subrange(0, i as int);
            let ghost more = layers.subrange(0, i + 1);
            assert(more.drop_last() =~= seen);
            assert(more.last() == self.0[i as int].layer);
            let (layer, width) = match self.0[i].layer {
                AddressLayer::Token => (Layer::Token, Some(1usize)),
                AddressLayer::Tag => (Layer::Tag, Some(1usize)),
                AddressLayer::DepRel => (Layer::DepRel, Some(1usize)),
                AddressLayer::Feature => (Layer::Feature, Some(1usize)),
                AddressLayer::Char(prefix, suffix) => (Layer::Char, prefix.checked_add(suffix)),
            };
            let grown = match width {
                Some(w) => sizes.get(layer).checked_add(w),
                None => None,
            };
            match grown {
                Some(size) => {
                    let ghost before = sizes;
                    sizes.set(layer, size);
                    assert forall|l: Layer| #[trigger] sizes.at(l) == layer_size(more, l) by {
                        assert(before.at(l) == layer_size(seen, l));
                    }
                },
                None => {
                    proof {
                        assert(sizes.at(layer) == layer_size(seen, layer));
                        assert(layer_size(more, layer) > usize::MAX);
                        lemma_layer_size_grows(layers, i + 1, layer);
                    }
                    return None;
                },
            }
            i += 1;
        }
        assert(layers.subrange(0, i as int) =~= layers);
        Some(sizes)
    }
}

/// The shapes of the tensors of a model.
#[derive(Debug)]
pub struct Shapes {
    /// The number of instances of a training batch.
    pub batch_size: usize,
    /// The lengths of the vectors of the layers.
    pub tokens: usize,
    pub tags: usize,
    pub deprels: usize,
    pub features: usize,
    pub chars: usize,
    /// The number of values of the relation lookup, 0 if there is none.
    pub deprel_embeds: usize,
    /// The number of values of the feature lookup, 0 if there is none.
    pub n_features: usize,
    /// The number of labels: one for each transition, and one for the
    /// number 0, which is no transition's.
    pub n_labels: usize,
    /// The numbers of characters that are read of the prefix and of the
    /// suffix of a token.
    pub prefix_len: usize,
    pub suffix_len: usize,
}

/// The length of a lookup, 0 if there is none.
pub open spec fn length_or_zero(length: Option<usize>) -> usize {
    match length {
        Some(n) => n,
        None => 0,
    }
}

/// The shapes of a model for training batches of `batch_size` instances:
/// the layer sizes as they are given, the lengths of the lookups of
/// relations and features, a label for each transition of `transitions` and
/// one more, and the affix lengths of `addrs`. Inputs without one pair of
/// affix lengths are not supported, nor is a table with more labels than
/// the machine can count.
pub fn shapes(
    batch_size: usize,
    layer_sizes: &LayerMap<usize>,
    lookup_lengths: &LayerMap<Option<usize>>,
    transitions: &TransitionTable,
    addrs: &AddressedValues,
) -> (made: Result<Shapes, Error>)
    ensures
        match made {
            Ok(s) => {
                &&& s.batch_size == batch_size
                &&& s.tokens == layer_sizes.at(Layer::Token)
                &&& s.tags == layer_sizes.at(Layer::Tag)
                &&& s.deprels == layer_sizes.at(Layer::DepRel)
                &&& s.features == layer_sizes.at(Layer::Feature)
                &&& s.chars == layer_sizes.at(Layer::Char)
                &&& s.deprel_embeds == length_or_zero(lookup_lengths.at(Layer::DepRel))
                &&& s.n_features == length_or_zero(lookup_lengths.at(Layer::Feature))
                &&& s.n_labels == transitions@.len() + 1
                &&& has_affixes(layers_of(addrs.0@))
                &&& uniform_affixes(layers_of(addrs.0@), s.prefix_len, s.suffix_len)
            },
            Err(e) => e == Error::Config && (transitions@.len() + 1 > usize::MAX || !(exists|
                prefix: usize,
                suffix: usize,
            |
                has_affixes(layers_of(addrs.0@)) && uniform_affixes(
                    layers_of(addrs.0@),
                    prefix,
                    suffix,
                ))),
        },
{
    let (prefix_len, suffix_len) = match affix_lengths(addrs) {
        Ok(pair) => pair,
        Err(e) => {
            return Err(e);
        },
    };
    let n_labels = match transitions.len().checked_add(1) {
        Some(n) => n,
        None => {
            return Err(Error::Config);
        },
    };
    let deprel_embeds = match layer_lookup_length(lookup_lengths, Layer::DepRel) {
        Some(n) => n,
        None => 0,
    };
    let n_features = match layer_lookup_length(lookup_lengths, Layer::Feature) {
        Some(n) => n,
        None => 0,
    };
    Ok(
        Shapes {
            batch_size,
            tokens: *layer_sizes.get(Layer::Token),
            tags: *layer_sizes.get(Layer::Tag),
            deprels: *layer_sizes.get(Layer::DepRel),
            features: *layer_sizes.get(Layer::Feature),
            chars: *layer_sizes.get(Layer::Char),
            deprel_embeds,
            n_features,
            n_labels,
            prefix_len,
            suffix_len,
        },
    )
}

fn layer_lookup_length(lengths: &LayerMap<Option<usize>>, layer: Layer) -> (length: Option<usize>)
    ensures
        length == lengths.at(layer),
{
    *lengths.get(layer)
}

} // verus!
