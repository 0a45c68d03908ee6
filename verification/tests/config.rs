use dpar::config::{Lookup, LookupSource, Lookups, Model, Parser, relativize_embed_path};
use dpar::error::Error;
use dpar::features::{
    affix_lengths, shapes, AddressLayer, AddressedValue, AddressedValues, Source,
};
use dpar::layers::LayerMap;
use dpar::model::SystemKind as Kind;
use dpar::state::{ParserState, Token};
use dpar::table::TransitionTable;
use dpar::transition::Transition;
use dpar::layers::{Layer, LayerOp, LayerOps};
use dpar::model::SystemKind;
use dpar::paths::{needs_directory, prepare_path, prepared_path, relativize_path, resolved_name};

fn parser(system: &str) -> Parser {
    Parser {
        pproj: true,
        system: system.to_string(),
        inputs: "parser.inputs".to_string(),
        transitions: "/abs/parser.transitions".to_string(),
        train_batch_size: 8000,
        parse_batch_size: 4000,
    }
}

fn embedding(file: &str) -> Lookup {
    Lookup::Embedding {
        filename: file.to_string(),
        op: format!("model/{}", file),
        embed_op: format!("model/{}_embeds", file),
    }
}

fn table(file: &str) -> Lookup {
    Lookup::Table { filename: file.to_string(), op: format!("model/{}", file) }
}

fn lookups() -> Lookups {
    Lookups {
        word: Some(embedding("words")),
        tag: Some(embedding("tags")),
        deprel: Some(table("deprels")),
        feature: None,
    }
}

fn source(s: &Option<LookupSource>) -> Option<(&str, &str)> {
    s.as_ref().map(|s| match s {
        LookupSource::Embeddings { filename } => ("embeddings", filename.as_str()),
        LookupSource::FreshTable { filename } => ("fresh", filename.as_str()),
        LookupSource::StoredTable { filename } => ("stored", filename.as_str()),
    })
}

#[test]
fn system_names() {
    assert_eq!(parser("arceager").system_kind(), Some(SystemKind::ArcEager));
    assert_eq!(parser("archybrid").system_kind(), Some(SystemKind::ArcHybrid));
    assert_eq!(parser("arcstandard").system_kind(), Some(SystemKind::ArcStandard));
    assert_eq!(parser("stackproj").system_kind(), Some(SystemKind::StackProjective));
    assert_eq!(parser("stackswap").system_kind(), Some(SystemKind::StackSwap));
    assert_eq!(parser("ArcEager").system_kind(), None);
    assert_eq!(parser("").system_kind(), None);
}

#[test]
fn lookups_to_make_and_to_read() {
    let made = lookups().create_lookups().unwrap();
    assert_eq!(source(&made.token), Some(("embeddings", "words")));
    assert_eq!(source(&made.tag), Some(("embeddings", "tags")));
    assert_eq!(source(&made.deprel), Some(("fresh", "deprels")));
    assert_eq!(source(&made.feature), None);
    assert_eq!(source(&made.chars), None);
    let read = lookups().load_lookups().unwrap();
    assert_eq!(source(&read.token), Some(("embeddings", "words")));
    assert_eq!(source(&read.deprel), Some(("stored", "deprels")));
    assert_eq!(source(&read.feature), None);
    assert_eq!(source(read.get(Layer::Tag)), Some(("embeddings", "tags")));
}

#[test]
fn construct_lookups_stops_at_the_first_failure() {
    let all = lookups();
    let lengths = all.construct_lookups_with(|l: &Lookup| Ok(l.filename().len())).unwrap();
    assert_eq!(lengths.token, Some(5));
    assert_eq!(lengths.tag, Some(4));
    assert_eq!(lengths.deprel, Some(7));
    assert_eq!(lengths.feature, None);
    assert_eq!(lengths.chars, None);
    let calls = std::cell::Cell::new(0);
    let failed = all.construct_lookups_with(|l: &Lookup| {
        calls.set(calls.get() + 1);
        if l.filename() == "tags" {
            Err(Error::Config)
        } else {
            Ok(1)
        }
    });
    assert_eq!(failed.err(), Some(Error::Config));
    assert_eq!(calls.get(), 2);
}

#[test]
fn layer_ops_of_tables() {
    let names = lookups().layer_ops();
    assert!(names.layer_lookup(Layer::Token).is_none());
    assert!(names.layer_lookup(Layer::Tag).is_none());
    assert!(names.layer_lookup(Layer::Feature).is_none());
    assert!(names.layer_lookup(Layer::Char).is_none());
    match names.layer_lookup(Layer::DepRel) {
        Some(LayerOp::Table { op }) => assert_eq!(op, "model/deprels"),
        other => panic!("{:?}", other),
    }
}

#[test]
fn graph_ops_are_resolved_in_order() {
    let mut names: LayerOps<String> = LayerOps::new();
    names.insert(
        Layer::Token,
        LayerOp::Embedding { op: "tokens".to_string(), embed_op: "token_embeds".to_string() },
    );
    names.insert(Layer::Tag, LayerOp::Table { op: "tags".to_string() });
    let seen = std::cell::RefCell::new(Vec::new());
    let resolve = |name: &String| {
        seen.borrow_mut().push(name.clone());
        Ok(name.len())
    };
    let ops = names.to_graph_ops(&resolve).unwrap();
    assert_eq!(*seen.borrow(), vec!["tokens", "token_embeds", "tags"]);
    match ops.layer_lookup(Layer::Token) {
        Some(LayerOp::Embedding { op, embed_op }) => assert_eq!((*op, *embed_op), (6, 12)),
        other => panic!("{:?}", other),
    }
    match ops.layer_lookup(Layer::Tag) {
        Some(LayerOp::Table { op }) => assert_eq!(*op, 4),
        other => panic!("{:?}", other),
    }
    assert!(ops.layer_lookup(Layer::DepRel).is_none());
    let missing = |name: &String| if name == "token_embeds" { Err(Error::Config) } else { Ok(1) };
    assert_eq!(names.to_graph_ops(&missing).err(), Some(Error::Config));
    let op = LayerOp::Table { op: "x".to_string() };
    assert!(op.to_graph_op(&missing).is_ok());
}

#[test]
fn thread_settings_as_a_message() {
    let mut model = Model {
        graph: "graph".to_string(),
        parameters: "params".to_string(),
        intra_op_parallelism_threads: 4,
        inter_op_parallelism_threads: 300,
    };
    assert_eq!(model.config_to_protobuf(), Ok(vec![0x10, 0x04, 0x28, 0xac, 0x02]));
    model.intra_op_parallelism_threads = 0;
    assert_eq!(model.config_to_protobuf(), Ok(vec![0x28, 0xac, 0x02]));
    model.inter_op_parallelism_threads = 0;
    assert_eq!(model.config_to_protobuf(), Ok(vec![]));
    model.intra_op_parallelism_threads = 0xffff_ffff;
    assert_eq!(
        model.config_to_protobuf(),
        Ok(vec![0x10, 0xff, 0xff, 0xff, 0xff, 0xff, 0xff, 0xff, 0xff, 0xff, 0x01])
    );
    model.intra_op_parallelism_threads = 0x1_0000_0001;
    assert_eq!(model.config_to_protobuf(), Ok(vec![0x10, 0x01]));
}

#[test]
fn names_are_resolved_against_the_configuration() {
    assert_eq!(resolved_name("", false, Some("x".to_string())), Ok("".to_string()));
    assert_eq!(resolved_name("/a/b", true, None), Ok("/a/b".to_string()));
    assert_eq!(resolved_name("b", false, Some("/a/b".to_string())), Ok("/a/b".to_string()));
    assert_eq!(resolved_name("b", false, None), Err(Error::Config));
    assert_eq!(relativize_path("/etc/dpar/dpar.conf", ""), Ok("".to_string()));
    assert_eq!(relativize_path("/etc/dpar/dpar.conf", "/var/graph"), Ok("/var/graph".to_string()));
    assert_eq!(
        relativize_path("/etc/dpar/dpar.conf", "graph.pb"),
        Ok("/etc/dpar/graph.pb".to_string())
    );
    assert_eq!(relativize_path("/", "graph.pb"), Err(Error::Config));
}

#[test]
fn paths_of_a_configuration_are_made_to_start_from_it() {
    let mut p = parser("arceager");
    assert_eq!(p.relativize_paths("/etc/dpar/dpar.conf"), Ok(()));
    assert_eq!(p.inputs, "/etc/dpar/parser.inputs");
    assert_eq!(p.transitions, "/abs/parser.transitions");
    assert_eq!(p.system, "arceager");
    let mut m = Model {
        graph: "graph".to_string(),
        parameters: "".to_string(),
        intra_op_parallelism_threads: 1,
        inter_op_parallelism_threads: 2,
    };
    assert_eq!(m.relativize_paths("/etc/dpar/dpar.conf"), Ok(()));
    assert_eq!(m.graph, "/etc/dpar/graph");
    assert_eq!(m.parameters, "");
    assert_eq!(m.relativize_paths("/"), Ok(()));
    m.graph = "graph".to_string();
    assert_eq!(m.relativize_paths("/"), Err(Error::Config));
    let mut l = lookups();
    assert_eq!(l.relativize_paths("/etc/dpar/dpar.conf"), Ok(()));
    assert_eq!(l.word.as_ref().unwrap().filename(), "/etc/dpar/words");
    assert_eq!(l.deprel.as_ref().unwrap().filename(), "/etc/dpar/deprels");
    assert!(l.feature.is_none());
}

#[test]
fn path_of_a_lookup_keeps_its_operations() {
    let mut lookup = Some(embedding("words"));
    assert_eq!(relativize_embed_path("/etc/dpar/dpar.conf", &mut lookup), Ok(()));
    match &lookup {
        Some(Lookup::Embedding { filename, op, embed_op }) => {
            assert_eq!(filename, "/etc/dpar/words");
            assert_eq!(op, "model/words");
            assert_eq!(embed_op, "model/words_embeds");
        }
        other => panic!("{:?}", other),
    }
    let mut lookup = Some(table("tags"));
    assert_eq!(relativize_embed_path("/", &mut lookup), Err(Error::Config));
    match &lookup {
        Some(Lookup::Table { filename, op }) => {
            assert_eq!(filename, "tags");
            assert_eq!(op, "model/tags");
        }
        other => panic!("{:?}", other),
    }
    let mut none = None;
    assert_eq!(relativize_embed_path("/etc/dpar/dpar.conf", &mut none), Ok(()));
    assert!(none.is_none());
}

#[test]
fn bare_file_names_get_a_directory() {
    assert_eq!(prepare_path("params"), Ok("./params".to_string()));
    assert_eq!(prepare_path("model/params"), Ok("model/params".to_string()));
    assert_eq!(prepare_path("/tmp/params"), Ok("/tmp/params".to_string()));
    assert_eq!(prepared_path("params", 1, None), Err(Error::Config));
    assert_eq!(prepared_path("params", 1, Some("./params".to_string())), Ok("./params".to_string()));
    assert_eq!(prepared_path("a/b", 2, None), Ok("a/b".to_string()));
}

fn value(layer: AddressLayer) -> AddressedValue {
    AddressedValue { address: vec![Source::Stack(0), Source::LDep(1)], layer }
}

#[test]
fn affix_lengths_of_the_character_layers() {
    let addrs = AddressedValues(vec![
        value(AddressLayer::Token),
        value(AddressLayer::Char(4, 3)),
        value(AddressLayer::Tag),
        value(AddressLayer::Char(4, 3)),
    ]);
    assert_eq!(affix_lengths(&addrs), Ok((4, 3)));
    let differing = AddressedValues(vec![
        value(AddressLayer::Char(4, 3)),
        value(AddressLayer::Char(4, 2)),
    ]);
    assert_eq!(affix_lengths(&differing), Err(Error::Config));
    let differing = AddressedValues(vec![
        value(AddressLayer::Char(1, 3)),
        value(AddressLayer::Feature),
        value(AddressLayer::Char(4, 3)),
    ]);
    assert_eq!(affix_lengths(&differing), Err(Error::Config));
    let none = AddressedValues(vec![value(AddressLayer::DepRel)]);
    assert_eq!(affix_lengths(&none), Err(Error::Config));
    assert_eq!(affix_lengths(&AddressedValues(vec![])), Err(Error::Config));
}

#[test]
fn names_that_are_read_from_the_directory_of_the_configuration() {
    assert!(needs_directory("graph.pb"));
    assert!(needs_directory("models/graph.pb"));
    assert!(!needs_directory("/var/graph.pb"));
    assert!(!needs_directory(""));
    assert!(parser("arceager").needs_directory());
    let mut p = parser("arceager");
    p.inputs = "/abs/inputs".to_string();
    assert!(!p.needs_directory());
    let mut m = Model {
        graph: "/abs/graph".to_string(),
        parameters: "".to_string(),
        intra_op_parallelism_threads: 1,
        inter_op_parallelism_threads: 2,
    };
    assert!(!m.needs_directory());
    m.parameters = "params".to_string();
    assert!(m.needs_directory());
    assert!(lookups().needs_directory());
    let none = Lookups { word: None, tag: Some(table("/abs/tags")), deprel: None, feature: None };
    assert!(!none.needs_directory());
}

#[test]
fn layer_sizes_of_addressed_values() {
    let addrs = AddressedValues(vec![
        value(AddressLayer::Token),
        value(AddressLayer::Char(4, 3)),
        value(AddressLayer::Tag),
        value(AddressLayer::Token),
        value(AddressLayer::Char(4, 3)),
        value(AddressLayer::DepRel),
    ]);
    let sizes = addrs.layer_sizes().unwrap();
    assert_eq!(
        (sizes.token, sizes.tag, sizes.deprel, sizes.feature, sizes.chars),
        (2, 1, 1, 0, 14)
    );
    let huge = AddressedValues(vec![value(AddressLayer::Char(usize::MAX, 1))]);
    assert!(huge.layer_sizes().is_none());
    let huge = AddressedValues(vec![
        value(AddressLayer::Char(usize::MAX, 0)),
        value(AddressLayer::Char(1, 0)),
    ]);
    assert!(huge.layer_sizes().is_none());
    let none = AddressedValues(vec![]).layer_sizes().unwrap();
    assert_eq!((none.token, none.chars), (0, 0));
}

#[test]
fn shapes_of_a_model() {
    let addrs = AddressedValues(vec![
        value(AddressLayer::Token),
        value(AddressLayer::Char(4, 3)),
        value(AddressLayer::Tag),
    ]);
    let sizes = addrs.layer_sizes().unwrap();
    let lengths: LayerMap<Option<usize>> =
        LayerMap { token: Some(100), tag: Some(20), deprel: Some(7), feature: None, chars: None };
    let mut table = TransitionTable::new();
    table.add(Transition::Shift).unwrap();
    table.add(Transition::LeftArc("a".to_string())).unwrap();
    let s = shapes(8000, &sizes, &lengths, &table, &addrs).unwrap();
    assert_eq!(s.batch_size, 8000);
    assert_eq!((s.tokens, s.tags, s.deprels, s.features, s.chars), (1, 1, 0, 0, 7));
    assert_eq!((s.deprel_embeds, s.n_features), (7, 0));
    assert_eq!(s.n_labels, 3);
    assert_eq!((s.prefix_len, s.suffix_len), (4, 3));
    let plain = AddressedValues(vec![value(AddressLayer::Token)]);
    assert_eq!(shapes(8000, &sizes, &lengths, &table, &plain).err(), Some(Error::Config));
}

fn at(sources: &[Source]) -> Vec<Source> {
    sources.to_vec()
}

#[test]
fn addresses_in_a_parser_state() {
    let sentence: Vec<Token> =
        (1..=5).map(|i| Token::new(format!("w{}", i), "X".to_string())).collect();
    let mut state = ParserState::new(&sentence);
    let kind = Kind::ArcStandard;
    for t in [
        Transition::Shift,
        Transition::Shift,
        Transition::LeftArc("a".to_string()),
        Transition::Shift,
        Transition::LeftArc("b".to_string()),
        Transition::Shift,
        Transition::RightArc("c".to_string()),
    ] {
        assert_eq!(kind.apply(&t, &mut state), Ok(()));
    }
    assert_eq!(state.address(&at(&[Source::Stack(0)])), Some(3));
    assert_eq!(state.address(&at(&[Source::Stack(1)])), None);
    assert_eq!(state.address(&at(&[Source::Buffer(0)])), Some(5));
    assert_eq!(state.address(&at(&[Source::Buffer(1)])), None);
    assert_eq!(state.address(&at(&[Source::Stack(0), Source::LDep(0)])), Some(2));
    assert_eq!(state.address(&at(&[Source::Stack(0), Source::LDep(1)])), None);
    assert_eq!(state.address(&at(&[Source::Stack(0), Source::RDep(0)])), Some(4));
    assert_eq!(state.address(&at(&[Source::Stack(0), Source::RDep(1)])), None);
    assert_eq!(state.address(&at(&[Source::Stack(0), Source::LDep(0), Source::LDep(0)])), Some(1));
    assert_eq!(state.address(&at(&[Source::Buffer(0), Source::LDep(0)])), None);
    assert_eq!(state.address(&at(&[Source::LDep(0)])), None);
    assert_eq!(state.address(&at(&[])), None);
    assert_eq!(state.source(Some(3), Source::LDep(0)), Some(2));
    assert_eq!(state.source(None, Source::RDep(0)), None);
}
