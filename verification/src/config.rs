//! The configuration of a parser: where its model and its lookups are, and
//! what the parts that load them are to do.

use protobuf::CodedOutputStream;
use protobuf::ProtobufError;
use vstd::prelude::*;
use crate::error::Error;
use crate::layers::{Layer, LayerMap, LayerOp, LayerOps};
use crate::model::SystemKind;
use crate::paths::{hangs_on_directory, needs_directory, relative_name, relativize_path};

verus! {

/// The errors of the protobuf writer.
#[verifier::external_type_specification]
#[verifier::external_body]
pub struct ExProtobufError(ProtobufError);

/// The settings of the parser.
#[derive(Debug)]
pub struct Parser {
    pub pproj: bool,
    pub system: String,
    pub inputs: String,
    pub transitions: String,
    pub train_batch_size: usize,
    pub parse_batch_size: usize,
}

/// The transition system with the name `name`.
pub open spec fn named_system(name: Seq<char>) -> Option<SystemKind> {
    if name == "arceager"@ {
        Some(SystemKind::ArcEager)
    } else if name == "archybrid"@ {
        Some(SystemKind::ArcHybrid)
    } else if name == "arcstandard"@ {
        Some(SystemKind::ArcStandard)
    } else if name == "stackproj"@ {
        Some(SystemKind::StackProjective)
    } else if name == "stackswap"@ {
        Some(SystemKind::StackSwap)
    } else {
        None
    }
}

fn is_name(text: &String, name: &str) -> (same: bool)
    ensures
        same == (text@ == name@),
{
    let owned = name.to_owned();
    *text == owned
}

impl Parser {
    /// The transition system that the configuration names, if it names one.
    pub fn system_kind(&self) -> (kind: Option<SystemKind>)
        ensures
            kind == named_system(self.system@),
    {
        if is_name(&self.system, "arceager") {
            Some(SystemKind::ArcEager)
        } else if is_name(&self.system, "archybrid") {
            Some(SystemKind::ArcHybrid)
        } else if is_name(&self.system, "arcstandard") {
            Some(SystemKind::ArcStandard)
        } else if is_name(&self.system, "stackproj") {
            Some(SystemKind::StackProjective)
        } else if is_name(&self.system, "stackswap") {
            Some(SystemKind::StackSwap)
        } else {
            None
        }
    }

    /// Whether a file name of the parser is read from the directory of the
    /// configuration file.
    pub fn needs_directory(&self) -> (needed: bool)
        ensures
            needed == (hangs_on_directory(self.inputs@) || hangs_on_directory(self.transitions@)),
    {
        needs_directory(self.inputs.as_str()) || needs_directory(self.transitions.as_str())
    }

    /// Makes the file names of the parser start from the directory of the
    /// configuration file `config_path`.
    /// The names are made over one after the other, `inputs` first; the
    /// first that cannot be made over ends the work, and it and the names
    /// after it stay as they were.
    pub fn relativize_paths(&mut self, config_path: &str) -> (done: Result<(), Error>)
        ensures
            done == if relative_name(config_path@, old(self).inputs@) is Some && relative_name(
                config_path@,
                old(self).transitions@,
            ) is Some {
                Ok::<(), Error>(())
            } else {
                Err(Error::Config)
            },
            final(self).inputs@ == made_over(config_path@, old(self).inputs@, true),
            final(self).transitions@ == made_over(
                config_path@,
                old(self).transitions@,
                relative_name(config_path@, old(self).inputs@) is Some,
            ),
            final(self).pproj == old(self).pproj,
            final(self).system == old(self).system,
            final(self).train_batch_size == old(self).train_batch_size,
            final(self).parse_batch_size == old(self).parse_batch_size,
    {
        let inputs = match relativize_path(config_path, self.inputs.as_str()) {
            Ok(name) => name,
            Err(e) => {
                return Err(e);
            },
        };
        self.inputs = inputs;
        let transitions = match relativize_path(config_path, self.transitions.as_str()) {
            Ok(name) => name,
            Err(e) => {
                return Err(e);
            },
        };
        self.transitions = transitions;
        Ok(())
    }
}

/// The file name `filename` after it was made to start from the directory
/// of the configuration file `config`, if the work got as far as this name:
/// a name that cannot be made over, and a name that was not reached, is as
/// it was.
pub open spec fn made_over(config: Seq<char>, filename: Seq<char>, reached: bool) -> Seq<char> {
    match relative_name(config, filename) {
        Some(name) => if reached {
            name
        } else {
            filename
        },
        None => filename,
    }
}

/// Where the values of a layer come from.
#[derive(Debug)]
pub enum Lookup {
    Embedding { filename: String, op: String, embed_op: String },
    Table { filename: String, op: String },
}

impl Lookup {
    /// The file of the lookup.
    pub open spec fn spec_filename(self) -> String {
        match self {
            Lookup::Embedding { filename, .. } => filename,
            Lookup::Table { filename, .. } => filename,
        }
    }

    /// The file of the lookup.
    pub fn filename(&self) -> (filename: &String)
        ensures
            *filename == self.spec_filename(),
    {
        match self {
            Lookup::Embedding { filename, .. } => filename,
            Lookup::Table { filename, .. } => filename,
        }
    }
}

/// What is to be read or made for a layer.
#[derive(Debug)]
pub enum LookupSource {
    /// Pre-trained embeddings, to be read from the file.
    Embeddings { filename: String },
    /// A lookup table that does not exist yet, to be stored in the file.
    FreshTable { filename: String },
    /// A lookup table, to be read from the file.
    StoredTable { filename: String },
}

/// What `lookup` asks for when lookup tables are made.
pub open spec fn fresh_source(lookup: Lookup) -> LookupSource {
    match lookup {
        Lookup::Embedding { filename, .. } => LookupSource::Embeddings { filename },
        Lookup::Table { filename, .. } => LookupSource::FreshTable { filename },
    }
}

/// What `lookup` asks for when lookup tables are read.
pub open spec fn stored_source(lookup: Lookup) -> LookupSource {
    match lookup {
        Lookup::Embedding { filename, .. } => LookupSource::Embeddings { filename },
        Lookup::Table { filename, .. } => LookupSource::StoredTable { filename },
    }
}

/// Whether `value` is what `load` made of `lookup`: nothing of no lookup.
pub open spec fn loaded<T, F: Fn(&Lookup) -> Result<T, Error>>(
    load: F,
    lookup: Option<Lookup>,
    value: Option<T>,
) -> bool {
    match lookup {
        Some(l) => value matches Some(v) && load.ensures((&l,), Ok(v)),
        None => value is None,
    }
}

/// Whether `load` made `value` of `lookup`.
pub open spec fn gave<T, F: Fn(&Lookup) -> Result<T, Error>>(load: F, lookup: Lookup, value: T) -> bool {
    load.ensures((&lookup,), Ok::<T, Error>(value))
}

/// Whether `load` was asked for `lookup`, if there is one, and made
/// something of it.
pub open spec fn passed<T, F: Fn(&Lookup) -> Result<T, Error>>(load: F, lookup: Option<Lookup>) -> bool {
    match lookup {
        Some(l) => exists|value: T| #[trigger] gave(load, l, value),
        None => true,
    }
}

/// Whether `load` failed on `lookup` with `e`.
pub open spec fn failed<T, F: Fn(&Lookup) -> Result<T, Error>>(
    load: F,
    lookup: Option<Lookup>,
    e: Error,
) -> bool {
    lookup matches Some(l) && load.ensures((&l,), Err::<T, Error>(e))
}

/// The lookups of the layers.
#[derive(Debug)]
pub struct Lookups {
    pub word: Option<Lookup>,
    pub tag: Option<Lookup>,
    pub deprel: Option<Lookup>,
    pub feature: Option<Lookup>,
}

impl Lookups {
    /// What `load_fun` makes of the lookup of each layer: that of words for
    /// the token layer, then tags, relations and features. The first failure
    /// ends the work: the error is that of the first lookup, in this order,
    /// on which `load_fun` fails.
    pub fn construct_lookups_with<T, F: Fn(&Lookup) -> Result<T, Error>>(&self, load_fun: F) -> (made:
        Result<LayerMap<Option<T>>, Error>)
        requires
            forall|l: &Lookup| #[trigger] load_fun.requires((l,)),
        ensures
            match made {
                Ok(m) => {
                    &&& loaded(load_fun, self.word, m.token)
                    &&& loaded(load_fun, self.tag, m.tag)
                    &&& loaded(load_fun, self.deprel, m.deprel)
                    &&& loaded(load_fun, self.feature, m.feature)
                    &&& m.chars is None
                },
                Err(e) => {
                    ||| failed::<T, F>(load_fun, self.word, e)
                    ||| passed::<T, F>(load_fun, self.word) && failed::<T, F>(
                        load_fun,
                        self.tag,
                        e,
                    )
                    ||| passed::<T, F>(load_fun, self.word) && passed::<T, F>(load_fun, self.tag)
                        && failed::<T, F>(load_fun, self.deprel, e)
                    ||| passed::<T, F>(load_fun, self.word) && passed::<T, F>(load_fun, self.tag)
                        && passed::<T, F>(load_fun, self.deprel) && failed::<T, F>(
                        load_fun,
                        self.feature,
                        e,
                    )
                },
            },
    {
        let token = match &self.word {
            Some(l) => match load_fun(l) {
                Ok(v) => {
                    assert(gave(load_fun, *l, v));
                    Some(v)
                },
                Err(e) => {
                    return Err(e);
                },
            },
            None => None,
        };
        let tag = match &self.tag {
            Some(l) => match load_fun(l) {
                Ok(v) => {
                    assert(gave(load_fun, *l, v));
                    Some(v)
                },
                Err(e) => {
                    return Err(e);
                },
            },
            None => None,
        };
        let deprel = match &self.deprel {
            Some(l) => match load_fun(l) {
                Ok(v) => {
                    assert(gave(load_fun, *l, v));
                    Some(v)
                },
                Err(e) => {
                    return Err(e);
                },
            },
            None => None,
        };
        let feature = match &self.feature {
            Some(l) => match load_fun(l) {
                Ok(v) => {
                    assert(gave(load_fun, *l, v));
                    Some(v)
                },
                Err(e) => {
                    return Err(e);
                },
            },
            None => None,
        };
        Ok(LayerMap { token, tag, deprel, feature, chars: None })
    }

    /// What is to be read or made for `lookup` when lookup tables are made.
    pub fn create_layer_tables(&self, lookup: &Lookup) -> (source: Result<LookupSource, Error>)
        ensures
            source == Ok::<LookupSource, Error>(fresh_source(*lookup)),
    {
        match lookup {
            Lookup::Embedding { filename, .. } => Ok(
                LookupSource::Embeddings { filename: filename.clone() },
            ),
            Lookup::Table { filename, .. } => Ok(
                LookupSource::FreshTable { filename: filename.clone() },
            ),
        }
    }

    /// What is to be read for `lookup` when lookup tables are read.
    pub fn load_layer_tables(&self, lookup: &Lookup) -> (source: Result<LookupSource, Error>)
        ensures
            source == Ok::<LookupSource, Error>(stored_source(*lookup)),
    {
        match lookup {
            Lookup::Embedding { filename, .. } => Ok(
                LookupSource::Embeddings { filename: filename.clone() },
            ),
            Lookup::Table { filename, .. } => Ok(
                LookupSource::StoredTable { filename: filename.clone() },
            ),
        }
    }

    /// For each layer, what is to be read or made where lookup tables do
    /// not exist yet: embeddings are read, tables are made.
    pub fn create_lookups(&self) -> (plan: Result<LayerMap<Option<LookupSource>>, Error>)
        ensures
            plan matches Ok(m) && m == (LayerMap {
                token: planned(self.word, true),
                tag: planned(self.tag, true),
                deprel: planned(self.deprel, true),
                feature: planned(self.feature, true),
                chars: None::<LookupSource>,
            }),
    {
        let load = |l: &Lookup| -> (r: Result<LookupSource, Error>)
            ensures
                r == Ok::<LookupSource, Error>(fresh_source(*l)),
            { self.create_layer_tables(l) };
        self.construct_lookups_with(load)
    }

    /// For each layer, what is to be read where lookup tables exist:
    /// embeddings and tables are read.
    pub fn load_lookups(&self) -> (plan: Result<LayerMap<Option<LookupSource>>, Error>)
        ensures
            plan matches Ok(m) && m == (LayerMap {
                token: planned(self.word, false),
                tag: planned(self.tag, false),
                deprel: planned(self.deprel, false),
                feature: planned(self.feature, false),
                chars: None::<LookupSource>,
            }),
    {
        let load = |l: &Lookup| -> (r: Result<LookupSource, Error>)
            ensures
                r == Ok::<LookupSource, Error>(stored_source(*l)),
            { self.load_layer_tables(l) };
        self.construct_lookups_with(load)
    }

    /// The names of the graph operations of the layers. A layer with a
    /// lookup table has the operation that the table names; no other layer
    /// has one.
    pub fn layer_ops(&self) -> (names: LayerOps<String>)
        ensures
            names.at(Layer::Token) == table_op(self.word),
            names.at(Layer::Tag) == table_op(self.tag),
            names.at(Layer::DepRel) == table_op(self.deprel),
            names.at(Layer::Feature) == table_op(self.feature),
            names.at(Layer::Char) is None,
    {
        let mut names = LayerOps::new();
        self.insert_layer_op(&mut names, Layer::Token, &self.word);
        self.insert_layer_op(&mut names, Layer::Tag, &self.tag);
        self.insert_layer_op(&mut names, Layer::DepRel, &self.deprel);
        self.insert_layer_op(&mut names, Layer::Feature, &self.feature);
        names
    }

    fn insert_layer_op(&self, names: &mut LayerOps<String>, layer: Layer, lookup: &Option<Lookup>)
        ensures
            final(names).at(layer) == if table_op(*lookup) is Some {
                table_op(*lookup)
            } else {
                old(names).at(layer)
            },
            forall|other: Layer| other != layer ==> final(names).at(other) == old(names).at(other),
    {
        match lookup {
            Some(Lookup::Table { op, .. }) => {
                names.insert(layer, LayerOp::Table { op: op.clone() });
            },
            _ => {},
        }
    }

    /// Whether the file name of a lookup is read from the directory of the
    /// configuration file.
    pub fn needs_directory(&self) -> (needed: bool)
        ensures
            needed == (lookup_hangs(self.word) || lookup_hangs(self.tag) || lookup_hangs(
                self.deprel,
            ) || lookup_hangs(self.feature)),
    {
        lookup_needs_directory(&self.word) || lookup_needs_directory(&self.tag)
            || lookup_needs_directory(&self.deprel) || lookup_needs_directory(&self.feature)
    }

    /// Makes the file names of the lookups start from the directory of the
    /// configuration file `config_path`: that of words, then tags, relations
    /// and features. The first that cannot be made over ends the work, and
    /// it and the lookups after it stay as they were.
    pub fn relativize_paths(&mut self, config_path: &str) -> (done: Result<(), Error>)
        ensures
            done == if can_move(config_path@, old(self).word) && can_move(
                config_path@,
                old(self).tag,
            ) && can_move(config_path@, old(self).deprel) && can_move(
                config_path@,
                old(self).feature,
            ) {
                Ok::<(), Error>(())
            } else {
                Err(Error::Config)
            },
            settled(config_path@, old(self).word, final(self).word, true),
            settled(
                config_path@,
                old(self).tag,
                final(self).tag,
                can_move(config_path@, old(self).word),
            ),
            settled(
                config_path@,
                old(self).deprel,
                final(self).deprel,
                can_move(config_path@, old(self).word) && can_move(config_path@, old(self).tag),
            ),
            settled(
                config_path@,
                old(self).feature,
                final(self).feature,
                can_move(config_path@, old(self).word) && can_move(config_path@, old(self).tag)
                    && can_move(config_path@, old(self).deprel),
            ),
    {
        match relativize_embed_path(config_path, &mut self.word) {
            Ok(()) => {},
            Err(e) => {
                return Err(e);
            },
        }
        match relativize_embed_path(config_path, &mut self.tag) {
            Ok(()) => {},
            Err(e) => {
                return Err(e);
            },
        }
        match relativize_embed_path(config_path, &mut self.deprel) {
            Ok(()) => {},
            Err(e) => {
                return Err(e);
            },
        }
        relativize_embed_path(config_path, &mut self.feature)
    }
}

/// What is to be read or made for a layer with the lookup `lookup`.
pub open spec fn planned(lookup: Option<Lookup>, fresh: bool) -> Option<LookupSource> {
    match lookup {
        Some(l) => Some(
            if fresh {
                fresh_source(l)
            } else {
                stored_source(l)
            },
        ),
        None => None,
    }
}

/// The operation of a layer with the lookup `lookup`, if it has a table.
pub open spec fn table_op(lookup: Option<Lookup>) -> Option<LayerOp<String>> {
    match lookup {
        Some(Lookup::Table { op, .. }) => Some(LayerOp::Table { op }),
        _ => None,
    }
}

/// Whether the file name of `lookup`, if there is one, is read from the
/// directory of the configuration file.
pub open spec fn lookup_hangs(lookup: Option<Lookup>) -> bool {
    match lookup {
        Some(l) => hangs_on_directory(l.spec_filename()@),
        None => false,
    }
}

fn lookup_needs_directory(lookup: &Option<Lookup>) -> (needed: bool)
    ensures
        needed == lookup_hangs(*lookup),
{
    match lookup {
        Some(l) => needs_directory(l.filename().as_str()),
        None => false,
    }
}

/// Whether the file name of `lookup`, if there is one, can be made to
/// start from the directory of the configuration file `config`.
pub open spec fn can_move(config: Seq<char>, lookup: Option<Lookup>) -> bool {
    match lookup {
        Some(l) => relative_name(config, l.spec_filename()@) is Some,
        None => true,
    }
}

/// Whether `after` is `before` with its file name made to start from the
/// directory of the configuration file `config`, and its operations as they
/// were.
pub open spec fn moved(config: Seq<char>, before: Option<Lookup>, after: Option<Lookup>) -> bool {
    match (before, after) {
        (None, None) => true,
        (
            Some(Lookup::Embedding { filename, op, embed_op }),
            Some(Lookup::Embedding { filename: name, op: op2, embed_op: embed_op2 }),
        ) => op2 == op && embed_op2 == embed_op && relative_name(config, filename@) == Some(name@),
        (
            Some(Lookup::Table { filename, op }),
            Some(Lookup::Table { filename: name, op: op2 }),
        ) => op2 == op && relative_name(config, filename@) == Some(name@),
        _ => false,
    }
}

/// Whether `after` is what the lookup `before` is after the work on a
/// configuration: moved if the work reached it and it can be moved, and as
/// it was if not.
pub open spec fn settled(
    config: Seq<char>,
    before: Option<Lookup>,
    after: Option<Lookup>,
    reached: bool,
) -> bool {
    if reached && can_move(config, before) {
        moved(config, before, after)
    } else {
        after == before
    }
}

/// Makes the file name of `embed`, if there is one, start from the
/// directory of the configuration file `config_path`. The operations stay.
/// A name that cannot be made over is an error, and stays.
pub fn relativize_embed_path(config_path: &str, embed: &mut Option<Lookup>) -> (done: Result<
    (),
    Error,
>)
    ensures
        done == if can_move(config_path@, *old(embed)) {
            Ok::<(), Error>(())
        } else {
            Err(Error::Config)
        },
        settled(config_path@, *old(embed), *final(embed), true),
{
    match embed {
        Some(Lookup::Embedding { filename, .. }) => {
            match relativize_path(config_path, filename.as_str()) {
                Ok(name) => {
                    *filename = name;
                    Ok(())
                },
                Err(e) => Err(e),
            }
        },
        Some(Lookup::Table { filename, .. }) => {
            match relativize_path(config_path, filename.as_str()) {
                Ok(name) => {
                    *filename = name;
                    Ok(())
                },
                Err(e) => Err(e),
            }
        },
        None => Ok(()),
    }
}

/// The settings of the model.
#[derive(Debug)]
pub struct Model {
    /// The file of the graph.
    pub graph: String,
    /// The file of the trained parameters.
    pub parameters: String,
    /// The number of threads that work within one graph operation.
    pub intra_op_parallelism_threads: usize,
    /// The number of threads that work on independent graph operations.
    pub inter_op_parallelism_threads: usize,
}

/// A number in the variable-length form of protocol buffers: seven bits to
/// a byte, the low ones first, and the high bit set on all bytes but the last.
pub open spec fn varint(v: nat) -> Seq<u8>
    decreases v,
{
    if v < 128 {
        seq![v as u8]
    } else {
        seq![(v % 128 + 128) as u8] + varint(v / 128)
    }
}

/// A field of type `int32` on the wire: its number with the wire type 0,
/// then its value, a negative one as the 64-bit number with the same bits.
pub open spec fn int32_field(field: u32, value: i32) -> Seq<u8> {
    varint((field * 8) as nat) + varint(
        if value >= 0 {
            value as nat
        } else {
            (value + 0x1_0000_0000_0000_0000) as nat
        },
    )
}

/// The thread settings as the session configuration of the model takes
/// them: the fields 2 and 5 of the message, of which a field that is 0 is
/// left out.
pub open spec fn thread_settings(intra: i32, inter: i32) -> Seq<u8> {
    (if intra != 0 {
        int32_field(2, intra)
    } else {
        Seq::empty()
    }) + (if inter != 0 {
        int32_field(5, inter)
    } else {
        Seq::empty()
    })
}

/// Appends a field of type `int32` to `out`, by `CodedOutputStream::write_int32`
/// on a stream over `out`: the tag of the field as a varint of 32 bits and
/// the value, widened to 64 bits with its sign, as a varint. A stream over
/// a vector has nowhere to fail: it grows the vector.
#[verifier::external_body]
fn write_int32_field(out: &mut Vec<u8>, field: u32, value: i32) -> (done: Result<
    (),
    ProtobufError,
>)
    requires
        1 <= field <= 0x1fff_ffff,
    ensures
        done is Ok,
        final(out)@ == old(out)@ + int32_field(field, value),
{
    let mut stream = CodedOutputStream::vec(out);
    stream.write_int32(field, value)?;
    stream.flush()
}

impl Model {
    /// The session configuration of the model as a protocol buffers message.
    pub fn config_to_protobuf(&self) -> (message: Result<Vec<u8>, Error>)
        ensures
            message matches Ok(bytes) && bytes@ == thread_settings(
                self.intra_op_parallelism_threads as i32,
                self.inter_op_parallelism_threads as i32,
            ),
    {
        let intra = #[verifier::truncate]
        (self.intra_op_parallelism_threads as i32);
        let inter = #[verifier::truncate]
        (self.inter_op_parallelism_threads as i32);
        let mut bytes: Vec<u8> = Vec::new();
        if intra != 0 {
            match write_int32_field(&mut bytes, 2, intra) {
                Ok(()) => {},
                Err(_) => {
                    return Err(Error::Config);
                },
            }
        }
        let ghost first = bytes@;
        if inter != 0 {
            match write_int32_field(&mut bytes, 5, inter) {
                Ok(()) => {},
                Err(_) => {
                    return Err(Error::Config);
                },
            }
        } else {
            assert(bytes@ =~= first + Seq::<u8>::empty());
        }
        assert(first =~= Seq::<u8>::empty() + first);
        Ok(bytes)
    }

    /// Whether a file name of the model is read from the directory of the
    /// configuration file.
    pub fn needs_directory(&self) -> (needed: bool)
        ensures
            needed == (hangs_on_directory(self.graph@) || hangs_on_directory(self.parameters@)),
    {
        needs_directory(self.graph.as_str()) || needs_directory(self.parameters.as_str())
    }

    /// Makes the file names of the model start from the directory of the
    /// configuration file `config_path`: `graph` first, then `parameters`.
    /// The first that cannot be made over ends the work, and it and the
    /// name after it stay as they were.
    pub fn relativize_paths(&mut self, config_path: &str) -> (done: Result<(), Error>)
        ensures
            done == if relative_name(config_path@, old(self).graph@) is Some && relative_name(
                config_path@,
                old(self).parameters@,
            ) is Some {
                Ok::<(), Error>(())
            } else {
                Err(Error::Config)
            },
            final(self).graph@ == made_over(config_path@, old(self).graph@, true),
            final(self).parameters@ == made_over(
                config_path@,
                old(self).parameters@,
                relative_name(config_path@, old(self).graph@) is Some,
            ),
            final(self).intra_op_parallelism_threads == old(self).intra_op_parallelism_threads,
            final(self).inter_op_parallelism_threads == old(self).inter_op_parallelism_threads,
    {
        let graph = match relativize_path(config_path, self.graph.as_str()) {
            Ok(name) => name,
            Err(e) => {
                return Err(e);
            },
        };
        self.graph = graph;
        let parameters = match relativize_path(config_path, self.parameters.as_str()) {
            Ok(name) => name,
            Err(e) => {
                return Err(e);
            },
        };
        self.parameters = parameters;
        Ok(())
    }
}

} // verus!
