//! The information layers of a parsing model, and what belongs to each.

use vstd::prelude::*;
use crate::error::Error;

verus! {

/// A layer of the input of a model.
#[derive(Clone, Copy, Debug, PartialEq, Eq, Structural, Hash)]
pub enum Layer {
    Token,
    Tag,
    DepRel,
    Feature,
    Char,
}

/// A value for each layer.
#[derive(Debug)]
pub struct LayerMap<V> {
    pub token: V,
    pub tag: V,
    pub deprel: V,
    pub feature: V,
    pub chars: V,
}

impl<V> LayerMap<V> {
    /// The value of `layer`.
    pub open spec fn at(self, layer: Layer) -> V {
        match layer {
            Layer::Token => self.token,
            Layer::Tag => self.tag,
            Layer::DepRel => self.deprel,
            Layer::Feature => self.feature,
            Layer::Char => self.chars,
        }
    }

    /// The value of `layer`.
    pub fn get(&self, layer: Layer) -> (value: &V)
        ensures
            *value == self.at(layer),
    {
        match layer {
            Layer::Token => &self.token,
            Layer::Tag => &self.tag,
            Layer::DepRel => &self.deprel,
            Layer::Feature => &self.feature,
            Layer::Char => &self.chars,
        }
    }

    /// Gives `layer` the value `value`.
    pub fn set(&mut self, layer: Layer, value: V)
        ensures
            final(self).at(layer) == value,
            forall|other: Layer| other != layer ==> final(self).at(other) == old(self).at(other),
    {
        match layer {
            Layer::Token => {
                self.token = value;
            },
            Layer::Tag => {
                self.tag = value;
            },
            Layer::DepRel => {
                self.deprel = value;
            },
            Layer::Feature => {
                self.feature = value;
            },
            Layer::Char => {
                self.chars = value;
            },
        }
    }
}

/// The graph operations of one layer.
///
/// A layer that uses pre-trained embeddings has two: the placeholder of the
/// layer vector and the placeholder of the embedding matrix. A layer that
/// uses a lookup table has the placeholder of the layer vector.
#[derive(Debug)]
pub enum LayerOp<T> {
    Embedding { op: T, embed_op: T },
    Table { op: T },
}

/// Whether `found` holds what `resolve` finds for the identifiers of `op`.
pub open spec fn op_found<S, T, F: Fn(&S) -> Result<T, Error>>(
    resolve: F,
    op: LayerOp<S>,
    found: LayerOp<T>,
) -> bool {
    match (op, found) {
        (LayerOp::Embedding { op, embed_op }, LayerOp::Embedding { op: a, embed_op: b }) => {
            resolve.ensures((&op,), Ok(a)) && resolve.ensures((&embed_op,), Ok(b))
        },
        (LayerOp::Table { op }, LayerOp::Table { op: a }) => resolve.ensures((&op,), Ok(a)),
        _ => false,
    }
}

/// Whether `resolve` fails with `e` on an identifier of `op`: on that of
/// the layer vector, or on that of the embedding matrix after it found the
/// first.
pub open spec fn op_missing<S, T, F: Fn(&S) -> Result<T, Error>>(
    resolve: F,
    op: LayerOp<S>,
    e: Error,
) -> bool {
    match op {
        LayerOp::Embedding { op, embed_op } => resolve.ensures((&op,), Err::<T, Error>(e)) || (
        exists|a: T| resolve.ensures((&op,), Ok(a)) && resolve.ensures(
            (&embed_op,),
            Err::<T, Error>(e),
        )),
        LayerOp::Table { op } => resolve.ensures((&op,), Err::<T, Error>(e)),
    }
}

impl<S> LayerOp<S> {
    /// The operations that `resolve` finds for the identifiers of this
    /// layer: first that of the layer vector, then that of the embedding
    /// matrix. The first identifier that is not found ends the search.
    pub fn to_graph_op<T, F: Fn(&S) -> Result<T, Error>>(&self, resolve: &F) -> (found: Result<
        LayerOp<T>,
        Error,
    >)
        requires
            forall|name: &S| #[trigger] resolve.requires((name,)),
        ensures
            match found {
                Ok(ops) => op_found(*resolve, *self, ops),
                Err(e) => op_missing::<S, T, F>(*resolve, *self, e),
            },
    {
        match self {
            LayerOp::Embedding { op, embed_op } => {
                let a = match resolve(op) {
                    Ok(a) => a,
                    Err(e) => {
                        return Err(e);
                    },
                };
                match resolve(embed_op) {
                    Ok(b) => Ok(LayerOp::Embedding { op: a, embed_op: b }),
                    Err(e) => Err(e),
                }
            },
            LayerOp::Table { op } => {
                match resolve(op) {
                    Ok(a) => Ok(LayerOp::Table { op: a }),
                    Err(e) => Err(e),
                }
            },
        }
    }
}

/// Whether `found` holds what `resolve` finds for the identifiers of a
/// layer: nothing for a layer without operations.
pub open spec fn layer_found<S, T, F: Fn(&S) -> Result<T, Error>>(
    resolve: F,
    op: Option<LayerOp<S>>,
    found: Option<LayerOp<T>>,
) -> bool {
    match op {
        Some(o) => found matches Some(f) && op_found(resolve, o, f),
        None => found is None,
    }
}

fn layer_to_graph_op<S, T, F: Fn(&S) -> Result<T, Error>>(
    op: &Option<LayerOp<S>>,
    resolve: &F,
) -> (found: Result<Option<LayerOp<T>>, Error>)
    requires
        forall|name: &S| #[trigger] resolve.requires((name,)),
    ensures
        match found {
            Ok(f) => layer_found(*resolve, *op, f),
            Err(e) => *op matches Some(o) && op_missing::<S, T, F>(*resolve, o, e),
        },
{
    match op {
        Some(o) => match o.to_graph_op(resolve) {
            Ok(f) => Ok(Some(f)),
            Err(e) => Err(e),
        },
        None => Ok(None),
    }
}

/// The graph operations of the layers that have any.
#[derive(Debug)]
pub struct LayerOps<S> {
    ops: LayerMap<Option<LayerOp<S>>>,
}

impl<S> LayerOps<S> {
    /// The operations of `layer`, if it has any.
    pub closed spec fn at(self, layer: Layer) -> Option<LayerOp<S>> {
        self.ops.at(layer)
    }

    /// No layer has operations.
    pub fn new() -> (ops: LayerOps<S>)
        ensures
            forall|layer: Layer| ops.at(layer) is None,
    {
        LayerOps {
            ops: LayerMap { token: None, tag: None, deprel: None, feature: None, chars: None },
        }
    }

    /// Sets the operations of `layer`.
    pub fn insert(&mut self, layer: Layer, op: LayerOp<S>)
        ensures
            final(self).at(layer) == Some(op),
            forall|other: Layer| other != layer ==> final(self).at(other) == old(self).at(other),
    {
        self.ops.set(layer, Some(op));
    }

    /// The operations that `resolve` finds for the identifiers of each
    /// layer. The first identifier that is not found ends the search.
    pub fn to_graph_ops<T, F: Fn(&S) -> Result<T, Error>>(&self, resolve: &F) -> (found: Result<
        LayerOps<T>,
        Error,
    >)
        requires
            forall|name: &S| #[trigger] resolve.requires((name,)),
        ensures
            match found {
                Ok(ops) => forall|layer: Layer|
                    layer_found(*resolve, self.at(layer), #[trigger] ops.at(layer)),
                Err(e) => exists|layer: Layer| #[trigger]
                    self.at(layer) matches Some(o) && op_missing::<S, T, F>(*resolve, o, e),
            },
    {
        let token = match layer_to_graph_op(&self.ops.token, resolve) {
            Ok(f) => f,
            Err(e) => {
                assert(self.at(Layer::Token) == self.ops.token);
                return Err(e);
            },
        };
        let tag = match layer_to_graph_op(&self.ops.tag, resolve) {
            Ok(f) => f,
            Err(e) => {
                assert(self.at(Layer::Tag) == self.ops.tag);
                return Err(e);
            },
        };
        let deprel = match layer_to_graph_op(&self.ops.deprel, resolve) {
            Ok(f) => f,
            Err(e) => {
                assert(self.at(Layer::DepRel) == self.ops.deprel);
                return Err(e);
            },
        };
        let feature = match layer_to_graph_op(&self.ops.feature, resolve) {
            Ok(f) => f,
            Err(e) => {
                assert(self.at(Layer::Feature) == self.ops.feature);
                return Err(e);
            },
        };
        let chars = match layer_to_graph_op(&self.ops.chars, resolve) {
            Ok(f) => f,
            Err(e) => {
                assert(self.at(Layer::Char) == self.ops.chars);
                return Err(e);
            },
        };
        Ok(LayerOps { ops: LayerMap { token, tag, deprel, feature, chars } })
    }

    /// The operations of `layer`, if it has any.
    pub fn layer_lookup(&self, layer: Layer) -> (op: Option<&LayerOp<S>>)
        ensures
            match op {
                Some(found) => self.at(layer) == Some(*found),
                None => self.at(layer) is None,
            },
    {
        self.ops.get(layer).as_ref()
    }
}

} // verus!
