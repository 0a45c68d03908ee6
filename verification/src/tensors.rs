//! Batches of training instances as a learner takes them: for each layer a
//! matrix with one row for each instance, and a label for each instance.

use vstd::prelude::*;
use crate::error::Error;
use crate::layers::{Layer, LayerMap};
use crate::model::Move;
use crate::state::ParserState;
use crate::table::{lemma_number_of, number_of, TransitionSystem};
use crate::train::InstanceCollector;
use crate::transition::Transition;

verus! {

/// The numbers `data` of a matrix of `width` columns, with `values` in the
/// places of row `row`.
pub open spec fn with_row(data: Seq<i32>, width: nat, row: nat, values: Seq<i32>) -> Seq<i32> {
    Seq::new(
        data.len(),
        |i: int|
            if row * width <= i < row * width + width {
                values[i - row * width]
            } else {
                data[i]
            },
    )
}

/// So many numbers, all of them 0.
pub open spec fn blank(len: nat) -> Seq<i32> {
    Seq::new(len, |i: int| 0i32)
}

/// A matrix of numbers, stored row by row.
#[derive(Debug)]
pub struct Matrix {
    rows: usize,
    cols: usize,
    data: Vec<i32>,
}

impl View for Matrix {
    type V = Seq<i32>;

    closed spec fn view(&self) -> Seq<i32> {
        self.data@
    }
}

impl Matrix {
    /// The number of rows.
    pub closed spec fn height(&self) -> nat {
        self.rows as nat
    }

    /// The number of columns.
    pub closed spec fn width(&self) -> nat {
        self.cols as nat
    }

    /// The matrix holds a number for each place.
    pub closed spec fn wf(&self) -> bool {
        self.data.len() == self.rows * self.cols
    }

    /// The length of the data of a well-formed matrix.
    pub proof fn lemma_len(&self)
        requires
            self.wf(),
        ensures
            self@.len() == self.height() * self.width(),
    {
    }

    /// The matrix of `rows` rows and `cols` columns that holds 0 everywhere,
    /// if the machine can count its places.
    pub fn zeros(rows: usize, cols: usize) -> (matrix: Option<Matrix>)
        ensures
            matrix is Some <==> rows * cols <= usize::MAX,
            matrix matches Some(m) ==> m.wf() && m.height() == rows && m.width() == cols && m@
                == blank((rows * cols) as nat),
    {
        let len = match rows.checked_mul(cols) {
            Some(len) => len,
            None => {
                return None;
            },
        };
        let mut data: Vec<i32> = Vec::new();
        let mut i: usize = 0;
        while i < len
            invariant
                i <= len,
                data.len() == i,
                forall|k: int| 0 <= k < i ==> data[k] == 0,
            decreases len - i,
        {
            data.push(0);
            i += 1;
        }
        let matrix = Matrix { rows, cols, data };
        assert(matrix@ =~= blank((rows * cols) as nat));
        Some(matrix)
    }

    /// The number of rows.
    pub fn rows(&self) -> (rows: usize)
        ensures
            rows == self.height(),
    {
        self.rows
    }

    /// The number of columns.
    pub fn cols(&self) -> (cols: usize)
        ensures
            cols == self.width(),
    {
        self.cols
    }

    /// The numbers of the matrix, row by row.
    pub fn data(&self) -> (data: &Vec<i32>)
        ensures
            data@ == self@,
    {
        &self.data
    }

    /// The places of row `row` in the data: from the first of the pair up
    /// to, and without, the second.
    pub fn row_range(&self, row: usize) -> (range: (usize, usize))
        requires
            self.wf(),
            row < self.height(),
        ensures
            range.0 == row * self.width(),
            range.1 == row * self.width() + self.width(),
            range.1 <= self@.len(),
    {
        assert(row * self.cols + self.cols <= self.rows * self.cols) by (nonlinear_arith)
            requires
                row < self.rows,
        ;
        let start = row * self.cols;
        (start, start + self.cols)
    }

    /// Writes `values` into row `row`. A row that the matrix does not have,
    /// and values that do not fill a row, are an error.
    pub fn set_row(&mut self, row: usize, values: &[i32]) -> (done: Result<(), Error>)
        requires
            old(self).wf(),
        ensures
            final(self).wf(),
            final(self).height() == old(self).height(),
            final(self).width() == old(self).width(),
            done == if row < old(self).height() && values@.len() == old(self).width() {
                Ok::<(), Error>(())
            } else {
                Err(Error::Collector)
            },
            final(self)@ == if done is Ok {
                with_row(old(self)@, old(self).width(), row as nat, values@)
            } else {
                old(self)@
            },
    {
        if row >= self.rows || values.len() != self.cols {
            return Err(Error::Collector);
        }
        let (start, end) = self.row_range(row);
        let mut k: usize = 0;
        while k < values.len()
            invariant
                k <= values@.len(),
                values@.len() == self.cols,
                self.cols == old(self).cols,
                self.rows == old(self).rows,
                self.data.len() == old(self).data.len(),
                start == row * self.cols,
                start + self.cols <= self.data.len(),
                forall|i: int|
                    0 <= i < self.data.len() ==> self.data[i] == if start <= i < start + k {
                        values@[i - start]
                    } else {
                        old(self).data[i]
                    },
            decreases values@.len() - k,
        {
            self.data.set(start + k, values[k]);
            k += 1;
        }
        assert(self@ =~= with_row(old(self)@, old(self).width(), row as nat, values@));
        Ok(())
    }
}

/// The matrices of a batch: one for each layer, with a row for each instance.
#[derive(Debug)]
pub struct LayerTensors(pub LayerMap<Matrix>);

impl LayerTensors {
    /// Each matrix is well-formed and has `rows` rows.
    pub open spec fn wf(&self, rows: nat) -> bool {
        forall|layer: Layer| (#[trigger] self.0.at(layer)).wf() && self.0.at(layer).height() == rows
    }

    /// For each layer, the places in the data of its matrix that hold the
    /// instance `idx` of the batch: from the first of the pair up to, and
    /// without, the second.
    pub fn to_instance_slices(&self, idx: usize) -> (slices: LayerMap<(usize, usize)>)
        requires
            exists|rows: nat| self.wf(rows) && idx < rows,
        ensures
            forall|layer: Layer|
                (#[trigger] slices.at(layer)).0 == idx * self.0.at(layer).width() && slices.at(
                    layer,
                ).1 == idx * self.0.at(layer).width() + self.0.at(layer).width(),
    {
        proof {
            let rows = choose|rows: nat| self.wf(rows) && idx < rows;
            assert(self.0.at(Layer::Token).wf() && self.0.at(Layer::Token).height() == rows);
            assert(self.0.at(Layer::Tag).wf() && self.0.at(Layer::Tag).height() == rows);
            assert(self.0.at(Layer::DepRel).wf() && self.0.at(Layer::DepRel).height() == rows);
            assert(self.0.at(Layer::Feature).wf() && self.0.at(Layer::Feature).height() == rows);
            assert(self.0.at(Layer::Char).wf() && self.0.at(Layer::Char).height() == rows);
        }
        LayerMap {
            token: self.0.token.row_range(idx),
            tag: self.0.tag.row_range(idx),
            deprel: self.0.deprel.row_range(idx),
            feature: self.0.feature.row_range(idx),
            chars: self.0.chars.row_range(idx),
        }
    }

    /// The matrices of a batch of `rows` instances whose layers have the
    /// widths `sizes`, holding 0 everywhere; none if the machine cannot count
    /// the places of one of them.
    pub fn zeros(rows: usize, sizes: &LayerMap<usize>) -> (tensors: Option<LayerTensors>)
        ensures
            tensors matches Some(t) ==> t.wf(rows as nat) && forall|layer: Layer|
                (#[trigger] t.0.at(layer)).width() == sizes.at(layer) && t.0.at(layer)@ == blank(
                    (rows * sizes.at(layer)) as nat,
                ),
            tensors is Some <==> forall|layer: Layer| rows * #[trigger] sizes.at(layer) <= usize::MAX,
    {
        proof {
            assert(sizes.at(Layer::Token) == sizes.token);
            assert(sizes.at(Layer::Tag) == sizes.tag);
            assert(sizes.at(Layer::DepRel) == sizes.deprel);
            assert(sizes.at(Layer::Feature) == sizes.feature);
            assert(sizes.at(Layer::Char) == sizes.chars);
        }
        let token = match Matrix::zeros(rows, sizes.token) {
            Some(m) => m,
            None => {
                return None;
            },
        };
        let tag = match Matrix::zeros(rows, sizes.tag) {
            Some(m) => m,
            None => {
                return None;
            },
        };
        let deprel = match Matrix::zeros(rows, sizes.deprel) {
            Some(m) => m,
            None => {
                return None;
            },
        };
        let feature = match Matrix::zeros(rows, sizes.feature) {
            Some(m) => m,
            None => {
                return None;
            },
        };
        let chars = match Matrix::zeros(rows, sizes.chars) {
            Some(m) => m,
            None => {
                return None;
            },
        };
        Some(LayerTensors(LayerMap { token, tag, deprel, feature, chars }))
    }

    /// Whether the vector of `layer` fills row `idx` of its matrix.
    pub open spec fn fits(&self, idx: usize, vectors: &LayerMap<Vec<i32>>, layer: Layer) -> bool {
        idx < self.0.at(layer).height() && vectors.at(layer)@.len() == self.0.at(layer).width()
    }

    /// Writes the vectors of one instance into the rows `idx` of the
    /// matrices. A vector that does not fill its row is an error and is not
    /// written, and so is a row that the matrices do not have; the other
    /// vectors are written all the same.
    pub fn write_instance(&mut self, idx: usize, vectors: &LayerMap<Vec<i32>>) -> (done: Result<
        (),
        Error,
    >)
        requires
            exists|rows: nat| old(self).wf(rows),
        ensures
            forall|rows: nat| old(self).wf(rows) ==> final(self).wf(rows),
            forall|layer: Layer|
                (#[trigger] final(self).0.at(layer)).width() == old(self).0.at(layer).width(),
            done == if forall|layer: Layer| old(self).fits(idx, vectors, layer) {
                Ok::<(), Error>(())
            } else {
                Err(Error::Collector)
            },
            forall|layer: Layer|
                (#[trigger] final(self).0.at(layer))@ == if old(self).fits(idx, vectors, layer) {
                    with_row(
                        old(self).0.at(layer)@,
                        old(self).0.at(layer).width(),
                        idx as nat,
                        vectors.at(layer)@,
                    )
                } else {
                    old(self).0.at(layer)@
                },
    {
        proof {
            let rows = choose|rows: nat| self.wf(rows);
            assert(self.0.at(Layer::Token).wf() && self.0.at(Layer::Token).height() == rows);
            assert(self.0.at(Layer::Tag).wf() && self.0.at(Layer::Tag).height() == rows);
            assert(self.0.at(Layer::DepRel).wf() && self.0.at(Layer::DepRel).height() == rows);
            assert(self.0.at(Layer::Feature).wf() && self.0.at(Layer::Feature).height() == rows);
            assert(self.0.at(Layer::Char).wf() && self.0.at(Layer::Char).height() == rows);
        }
        let a = self.0.token.set_row(idx, vectors.token.as_slice());
        let b = self.0.tag.set_row(idx, vectors.tag.as_slice());
        let c = self.0.deprel.set_row(idx, vectors.deprel.as_slice());
        let d = self.0.feature.set_row(idx, vectors.feature.as_slice());
        let e = self.0.chars.set_row(idx, vectors.chars.as_slice());
        proof {
            assert(a is Ok <==> old(self).fits(idx, vectors, Layer::Token));
            assert(b is Ok <==> old(self).fits(idx, vectors, Layer::Tag));
            assert(c is Ok <==> old(self).fits(idx, vectors, Layer::DepRel));
            assert(d is Ok <==> old(self).fits(idx, vectors, Layer::Feature));
            assert(e is Ok <==> old(self).fits(idx, vectors, Layer::Char));
        }
        if a.is_ok() && b.is_ok() && c.is_ok() && d.is_ok() && e.is_ok() {
            Ok(())
        } else {
            Err(Error::Collector)
        }
    }
}

/// Turns a parser state into the input of a model: for each layer a vector
/// of numbers. How it does so is not the business of this library, which
/// checks only that the vectors fill the rows that were made for them.
pub trait InputVectorizer {
    /// The length of the vector of each layer.
    fn layer_sizes(&self) -> LayerMap<usize>;

    /// The vectors for `state`.
    fn realize(&self, state: &ParserState) -> (vectors: LayerMap<Vec<i32>>)
        requires
            state.wf(),
    ;
}

/// A collector that keeps the instances in batches of a fixed size: for each
/// batch the matrices of the layers and the numbers of the transitions.
pub struct TensorCollector<V> {
    transition_system: TransitionSystem,
    vectorizer: V,
    batch_size: usize,
    batch_idx: usize,
    inputs: Vec<LayerTensors>,
    labels: Vec<Vec<i32>>,
}

impl<V: InputVectorizer> TensorCollector<V> {
    /// The transition system as it stands.
    pub closed spec fn system(&self) -> TransitionSystem {
        self.transition_system
    }

    /// The number of instances of a batch.
    pub closed spec fn batch_size(&self) -> nat {
        self.batch_size as nat
    }

    /// The number of instances in the batch that is being filled; 0 when the
    /// next instance starts a batch.
    pub closed spec fn filled(&self) -> nat {
        self.batch_idx as nat
    }

    /// The labels of the batches.
    pub closed spec fn labels(&self) -> Seq<Vec<i32>> {
        self.labels@
    }

    /// The matrices of the batches.
    pub closed spec fn inputs(&self) -> Seq<LayerTensors> {
        self.inputs@
    }

    /// The batches are whole: each has its matrices, of as many rows as a
    /// batch has instances, and a label for each of its instances, and the
    /// batch that is being filled is the last one.
    pub open spec fn whole(&self) -> bool {
        &&& self.system().wf()
        &&& self.batch_size() >= 1
        &&& self.filled() < self.batch_size()
        &&& self.inputs().len() == self.labels().len()
        &&& self.filled() > 0 ==> self.labels().len() >= 1
        &&& forall|i: int|
            0 <= i < self.labels().len() ==> (#[trigger] self.labels()[i])@.len()
                == self.batch_size()
        &&& forall|i: int|
            0 <= i < self.inputs().len() ==> (#[trigger] self.inputs()[i]).wf(self.batch_size())
    }

    /// A collector without batches, which numbers its transitions in the
    /// table of `transition_system` and fills batches of `batch_size`
    /// instances.
    pub fn new(transition_system: TransitionSystem, vectorizer: V, batch_size: usize) -> (collector:
        Self)
        requires
            transition_system.wf(),
            batch_size >= 1,
        ensures
            collector.whole(),
            collector.system() == transition_system,
            collector.batch_size() == batch_size,
            collector.filled() == 0,
            collector.labels().len() == 0,
            collector.inputs().len() == 0,
    {
        TensorCollector {
            transition_system,
            vectorizer,
            batch_size,
            batch_idx: 0,
            inputs: Vec::new(),
            labels: Vec::new(),
        }
    }

    /// The transition system with the transitions that were met.
    pub fn transition_system(&self) -> (system: &TransitionSystem)
        ensures
            *system == self.system(),
    {
        &self.transition_system
    }

    /// The labels of the batches: for each batch the numbers of the
    /// transitions of its instances.
    pub fn label_batches(&self) -> (labels: &Vec<Vec<i32>>)
        ensures
            labels@ == self.labels(),
    {
        &self.labels
    }

    /// The matrices of the batches.
    pub fn input_batches(&self) -> (inputs: &Vec<LayerTensors>)
        ensures
            inputs@ == self.inputs(),
    {
        &self.inputs
    }

    /// Opens a batch if the next instance starts one: a batch that holds 0
    /// everywhere, with matrices of the widths `sizes`. Fails, and opens
    /// none, if the machine cannot count the places of a matrix.
    pub fn open_batch(&mut self, sizes: &LayerMap<usize>) -> (done: Result<(), Error>)
        requires
            old(self).whole(),
        ensures
            final(self).whole(),
            final(self).system() == old(self).system(),
            final(self).batch_size() == old(self).batch_size(),
            final(self).filled() == old(self).filled(),
            done == if old(self).filled() > 0 || forall|layer: Layer|
                old(self).batch_size() * #[trigger] sizes.at(layer) <= usize::MAX {
                Ok::<(), Error>(())
            } else {
                Err(Error::Collector)
            },
            if old(self).filled() == 0 && done is Ok {
                &&& final(self).labels().len() == old(self).labels().len() + 1
                &&& final(self).labels().drop_last() == old(self).labels()
                &&& final(self).labels().last()@ == blank(old(self).batch_size())
                &&& final(self).inputs().drop_last() == old(self).inputs()
                &&& forall|layer: Layer|
                    (#[trigger] final(self).inputs().last().0.at(layer)).width() == sizes.at(layer)
                        && final(self).inputs().last().0.at(layer)@ == blank(
                        (old(self).batch_size() * sizes.at(layer)) as nat,
                    )
            } else {
                final(self).labels() == old(self).labels() && final(self).inputs() == old(
                    self,
                ).inputs()
            },
            done is Ok ==> final(self).labels().len() >= 1,
    {
        if self.batch_idx == 0 {
            let tensors = match LayerTensors::zeros(self.batch_size, sizes) {
                Some(t) => t,
                None => {
                    return Err(Error::Collector);
                },
            };
            let mut labels: Vec<i32> = Vec::new();
            let mut i: usize = 0;
            while i < self.batch_size
                invariant
                    i <= self.batch_size,
                    labels.len() == i,
                    forall|k: int| 0 <= k < i ==> labels[k] == 0,
                decreases self.batch_size - i,
            {
                labels.push(0);
                i += 1;
            }
            assert(labels@ =~= blank(self.batch_size as nat));
            self.labels.push(labels);
            self.inputs.push(tensors);
            assert(self.labels@.drop_last() =~= old(self).labels@);
            assert(self.inputs@.drop_last() =~= old(self).inputs@);
        }
        Ok(())
    }

    /// The label of `transition`: its number in the table, which it is
    /// given if it has none and the table grows. Fails if the table is
    /// frozen and does not list the transition, and if the number is too
    /// large for a label.
    pub fn number(&mut self, transition: &Transition) -> (label: Result<i32, Error>)
        requires
            old(self).whole(),
        ensures
            final(self).whole(),
            final(self).batch_size() == old(self).batch_size(),
            final(self).filled() == old(self).filled(),
            final(self).labels() == old(self).labels(),
            final(self).inputs() == old(self).inputs(),
            final(self).system().spec_kind() == old(self).system().spec_kind(),
            final(self).system().table().frozen() == old(self).system().table().frozen(),
            final(self).system().table()@ == with_number(
                old(self).system().table()@,
                transition@,
                old(self).system().table().frozen(),
            ),
            label == label_of(
                old(self).system().table()@,
                transition@,
                old(self).system().table().frozen(),
            ),
            label matches Ok(l) ==> number_of(final(self).system().table()@, transition@) == Some(
                l as nat,
            ),
    {
        proof {
            lemma_number_of(self.transition_system.table()@, transition@);
        }
        let number = match self.transition_system.add(transition.clone()) {
            Ok(n) => n,
            Err(e) => {
                return Err(e);
            },
        };
        proof {
            self.transition_system.table().lemma_countable();
        }
        if number > 0x7fff_ffff {
            return Err(Error::Collector);
        }
        Ok(number as i32)
    }

    /// Writes an instance into the batch that is being filled: its label
    /// and the vectors of its layers. Fails if no batch is open, and if a
    /// vector does not fill its row; the label and the vectors that fill
    /// their rows are written all the same. An instance that was written
    /// whole is counted.
    pub fn store(&mut self, label: i32, vectors: &LayerMap<Vec<i32>>) -> (done: Result<(), Error>)
        requires
            old(self).whole(),
        ensures
            final(self).whole(),
            final(self).system() == old(self).system(),
            final(self).batch_size() == old(self).batch_size(),
            done == if old(self).labels().len() >= 1 && fits_all(
                old(self).inputs().last(),
                old(self).filled() as usize,
                vectors,
            ) {
                Ok::<(), Error>(())
            } else {
                Err(Error::Collector)
            },
            final(self).filled() == if done is Ok {
                next_place(old(self).filled(), old(self).batch_size())
            } else {
                old(self).filled()
            },
            if old(self).labels().len() >= 1 {
                &&& final(self).labels().len() == old(self).labels().len()
                &&& final(self).labels().drop_last() == old(self).labels().drop_last()
                &&& final(self).labels().last()@ == old(self).labels().last()@.update(
                    old(self).filled() as int,
                    label,
                )
                &&& final(self).inputs().len() == old(self).inputs().len()
                &&& final(self).inputs().drop_last() == old(self).inputs().drop_last()
                &&& written(
                    old(self).inputs().last(),
                    final(self).inputs().last(),
                    old(self).filled() as usize,
                    vectors,
                )
            } else {
                final(self).labels() == old(self).labels() && final(self).inputs() == old(
                    self,
                ).inputs()
            },
    {
        if self.labels.len() == 0 {
            return Err(Error::Collector);
        }
        let batch = self.labels.len() - 1;
        let at = self.batch_idx;
        let mut labels: Vec<i32> = Vec::new();
        std::mem::swap(&mut labels, &mut self.labels[batch]);
        labels.set(at, label);
        std::mem::swap(&mut labels, &mut self.labels[batch]);
        assert(self.labels@.drop_last() =~= old(self).labels@.drop_last());
        let ghost before = self.inputs@;
        let written = self.inputs[batch].write_instance(at, vectors);
        assert(self.inputs@.drop_last() =~= old(self).inputs@.drop_last());
        match written {
            Ok(()) => {},
            Err(e) => {
                return Err(e);
            },
        }
        self.batch_idx = self.batch_idx + 1;
        if self.batch_idx == self.batch_size {
            self.batch_idx = 0;
        }
        Ok(())
    }
}

/// The number that a table gives to `m`: the one it has, or the next one
/// if the table does not list it and grows; none if it is frozen and does
/// not list it.
pub open spec fn next_number(entries: Seq<Move>, m: Move, frozen: bool) -> Option<nat> {
    match number_of(entries, m) {
        Some(id) => Some(id),
        None => if frozen {
            None
        } else {
            Some(entries.len() + 1)
        },
    }
}

/// The table after `m` was given its number.
pub open spec fn with_number(entries: Seq<Move>, m: Move, frozen: bool) -> Seq<Move> {
    if number_of(entries, m) is None && !frozen {
        entries.push(m)
    } else {
        entries
    }
}

/// The label of `m`: its number, if it has one that a label can hold.
pub open spec fn label_of(entries: Seq<Move>, m: Move, frozen: bool) -> Result<i32, Error> {
    match next_number(entries, m, frozen) {
        Some(id) => if id > 0x7fff_ffff {
            Err(Error::Collector)
        } else {
            Ok(id as i32)
        },
        None => Err(Error::FrozenTable),
    }
}

/// The place of the next instance after the one at `filled` in batches of
/// `size` instances.
pub open spec fn next_place(filled: nat, size: nat) -> nat {
    if filled + 1 == size {
        0
    } else {
        filled + 1
    }
}

/// Whether the vector of every layer fills row `idx` of its matrix.
pub open spec fn fits_all(tensors: LayerTensors, idx: usize, vectors: &LayerMap<Vec<i32>>) -> bool {
    forall|layer: Layer| #[trigger] tensors.fits(idx, vectors, layer)
}

/// Whether `after` is `before` with the vectors that fill their rows
/// written into the rows `idx`.
pub open spec fn written(
    before: LayerTensors,
    after: LayerTensors,
    idx: usize,
    vectors: &LayerMap<Vec<i32>>,
) -> bool {
    forall|layer: Layer|
        (#[trigger] after.0.at(layer)).width() == before.0.at(layer).width() && after.0.at(layer)@
            == if before.fits(idx, vectors, layer) {
            with_row(
                before.0.at(layer)@,
                before.0.at(layer).width(),
                idx as nat,
                vectors.at(layer)@,
            )
        } else {
            before.0.at(layer)@
        }
}

impl<V: InputVectorizer> InstanceCollector for TensorCollector<V> {
    open spec fn ready(&self) -> bool {
        self.whole()
    }

    /// Takes an instance: opens a batch if the instance starts one, with
    /// matrices of the widths that the vectorizer names; numbers the
    /// transition; and writes the number and the vectors that the
    /// vectorizer makes of the state into the batch. The transition keeps
    /// its number, and a batch that was opened stays, also where the
    /// instance is not taken.
    fn collect(&mut self, transition: &Transition, state: &ParserState) -> (taken: Result<
        (),
        Error,
    >)
        ensures
            final(self).batch_size() == old(self).batch_size(),
            final(self).system().spec_kind() == old(self).system().spec_kind(),
            final(self).system().table().frozen() == old(self).system().table().frozen(),
            final(self).labels().len() == old(self).labels().len() || (old(self).filled() == 0
                && final(self).labels().len() == old(self).labels().len() + 1),
            final(self).inputs().len() == final(self).labels().len(),
            forall|i: int|
                0 <= i && i + 1 < final(self).labels().len() && i < old(self).labels().len()
                    ==> #[trigger] final(self).labels()[i] == old(self).labels()[i]
                    && final(self).inputs()[i] == old(self).inputs()[i],
            final(self).system().table()@ == if batch_at_hand(
                old(self).filled(),
                old(self).labels().len(),
                final(self).labels().len(),
            ) {
                with_number(
                    old(self).system().table()@,
                    transition@,
                    old(self).system().table().frozen(),
                )
            } else {
                old(self).system().table()@
            },
            !batch_at_hand(old(self).filled(), old(self).labels().len(), final(self).labels().len())
                ==> taken == Err::<(), Error>(Error::Collector),
            batch_at_hand(old(self).filled(), old(self).labels().len(), final(self).labels().len())
                ==> match label_of(
                old(self).system().table()@,
                transition@,
                old(self).system().table().frozen(),
            ) {
                Err(e) => taken == Err::<(), Error>(e),
                Ok(_) => true,
            },
            final(self).filled() == if taken is Ok {
                next_place(old(self).filled(), old(self).batch_size())
            } else {
                old(self).filled()
            },
            taken matches Err(e) ==> e == Error::Collector || (e == Error::FrozenTable && label_of(
                old(self).system().table()@,
                transition@,
                old(self).system().table().frozen(),
            ) == Err::<i32, Error>(Error::FrozenTable)),
            !batch_at_hand(old(self).filled(), old(self).labels().len(), final(self).labels().len())
                ==> final(self).labels() == old(self).labels() && final(self).inputs() == old(
                self,
            ).inputs(),
            batch_at_hand(old(self).filled(), old(self).labels().len(), final(self).labels().len())
                ==> final(self).labels().last()@ == labels_after(
                labels_before(old(self).labels(), old(self).filled(), old(self).batch_size()),
                old(self).filled(),
                label_of(
                    old(self).system().table()@,
                    transition@,
                    old(self).system().table().frozen(),
                ),
            ),
            batch_at_hand(old(self).filled(), old(self).labels().len(), final(self).labels().len())
                ==> forall|layer: Layer|
                same_but_row(
                    inputs_before(
                        old(self).inputs(),
                        old(self).filled(),
                        old(self).batch_size(),
                        (#[trigger] final(self).inputs().last().0.at(layer)).width(),
                        layer,
                    ),
                    final(self).inputs().last().0.at(layer)@,
                    final(self).inputs().last().0.at(layer).width(),
                    old(self).filled(),
                ) && (old(self).filled() > 0 ==> final(self).inputs().last().0.at(layer).width()
                    == old(self).inputs().last().0.at(layer).width()) && (label_of(
                    old(self).system().table()@,
                    transition@,
                    old(self).system().table().frozen(),
                ) is Err ==> final(self).inputs().last().0.at(layer)@ == inputs_before(
                    old(self).inputs(),
                    old(self).filled(),
                    old(self).batch_size(),
                    final(self).inputs().last().0.at(layer).width(),
                    layer,
                )),
            taken is Ok ==> {
                &&& final(self).labels().len() == old(self).labels().len() + (if old(
                    self,
                ).filled() == 0 {
                    1nat
                } else {
                    0nat
                })
                &&& number_of(final(self).system().table()@, transition@) == Some(
                    final(self).labels().last()[old(self).filled() as int] as nat,
                )
            },
    {
        if self.batch_idx == 0 {
            let sizes = self.vectorizer.layer_sizes();
            match self.open_batch(&sizes) {
                Ok(()) => {},
                Err(e) => {
                    return Err(e);
                },
            }
        }
        let ghost opened = self.labels@;
        let ghost matrices = self.inputs@;
        let label = match self.number(transition) {
            Ok(l) => l,
            Err(e) => {
                return Err(e);
            },
        };
        let vectors = self.vectorizer.realize(state);
        let stored = self.store(label, &vectors);
        proof {
            assert forall|i: int|
                0 <= i && i + 1 < self.labels@.len() && i < old(self).labels@.len() implies #[trigger] self.labels@[i]
                == old(self).labels@[i] && self.inputs@[i] == old(self).inputs@[i] by {
                assert(self.labels@[i] == self.labels@.drop_last()[i]);
                assert(opened[i] == opened.drop_last()[i]);
                assert(self.inputs@[i] == self.inputs@.drop_last()[i]);
                assert(matrices[i] == matrices.drop_last()[i]);
                if old(self).batch_idx == 0 {
                    assert(opened.drop_last()[i] == old(self).labels@[i]);
                    assert(matrices.drop_last()[i] == old(self).inputs@[i]);
                }
            }
            assert forall|layer: Layer|
                same_but_row(
                    matrices.last().0.at(layer)@,
                    (#[trigger] self.inputs@.last().0.at(layer))@,
                    self.inputs@.last().0.at(layer).width(),
                    old(self).batch_idx as nat,
                ) by {
                assert(matrices.last().0.at(layer).width() == self.inputs@.last().0.at(
                    layer,
                ).width());
            }
        }
        stored
    }
}

/// The labels of the batch that takes an instance, before it is taken:
/// those of the batch that is being filled, or blank ones if the instance
/// starts a batch.
pub open spec fn labels_before(labels: Seq<Vec<i32>>, filled: nat, size: nat) -> Seq<i32> {
    if filled == 0 {
        blank(size)
    } else {
        labels.last()@
    }
}

/// The labels of a batch after an instance that has a label was given the
/// place `filled`.
pub open spec fn labels_after(before: Seq<i32>, filled: nat, label: Result<i32, Error>) -> Seq<i32> {
    match label {
        Ok(l) => before.update(filled as int, l),
        Err(_) => before,
    }
}

/// The numbers of the matrix of `layer`, of width `width`, in the batch
/// that takes an instance, before it is taken: those of the batch that is
/// being filled, or 0 everywhere if the instance starts a batch.
pub open spec fn inputs_before(
    inputs: Seq<LayerTensors>,
    filled: nat,
    size: nat,
    width: nat,
    layer: Layer,
) -> Seq<i32> {
    if filled == 0 {
        blank((size * width) as nat)
    } else {
        inputs.last().0.at(layer)@
    }
}

/// Whether `after` holds what `before` holds outside row `row` of a matrix
/// of `width` columns.
pub open spec fn same_but_row(before: Seq<i32>, after: Seq<i32>, width: nat, row: nat) -> bool {
    &&& after.len() == before.len()
    &&& forall|i: int|
        0 <= i < before.len() && !(row * width <= i < row * width + width) ==> after[i]
            == before[i]
}

/// Whether a batch is at hand for an instance: one was being filled, or
/// one was opened for it.
pub open spec fn batch_at_hand(filled: nat, before: nat, after: nat) -> bool {
    filled > 0 || after == before + 1
}

} // verus!
