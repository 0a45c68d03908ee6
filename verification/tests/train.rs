use dpar::dependency::DependencySet;
use dpar::error::Error;
use dpar::gold::GoldTree;
use dpar::layers::{Layer, LayerMap};
use dpar::model::SystemKind;
use dpar::state::{ParserState, Token};
use dpar::table::TransitionSystem;
use dpar::tensors::{InputVectorizer, LayerTensors, Matrix, TensorCollector};
use dpar::train::{after_sentence, GreedyTrainer, InstanceCollector, NoopCollector};
use dpar::transition::Transition;

fn sentence(n: usize) -> Vec<Token> {
    (0..n).map(|i| Token::new(format!("w{}", i + 1), "X".to_string())).collect()
}

fn gold(n: usize, list: &[(usize, usize, &str)]) -> GoldTree {
    let mut set = DependencySet::new(n);
    for (modifier, head, label) in list {
        assert_eq!(set.insert(*modifier, *head, label.to_string()), Ok(()));
    }
    GoldTree::new(set)
}

fn left(label: &str) -> Transition {
    Transition::LeftArc(label.to_string())
}

fn right(label: &str) -> Transition {
    Transition::RightArc(label.to_string())
}

/// Keeps what it is shown: the transition, and the stack and buffer sizes.
struct Recorder {
    seen: Vec<(Transition, usize, usize)>,
    fail_at: Option<usize>,
}

impl InstanceCollector for Recorder {
    fn collect(&mut self, transition: &Transition, state: &ParserState) -> Result<(), Error> {
        if self.fail_at == Some(self.seen.len()) {
            return Err(Error::Collector);
        }
        self.seen.push((transition.clone(), state.stack_len(), state.buffer_len()));
        Ok(())
    }
}

#[test]
fn trainer_shows_each_state_before_the_transition_is_applied() {
    let tree = gold(3, &[(1, 2, "subj"), (3, 2, "obj")]);
    let mut trainer =
        GreedyTrainer::new(SystemKind::ArcStandard, Recorder { seen: vec![], fail_at: None });
    let mut state = ParserState::new(&sentence(3));
    assert_eq!(trainer.parse_state(&tree, &mut state), Ok(()));
    assert!(SystemKind::ArcStandard.is_terminal(&state));
    assert!(state.to_dependency_set().same(tree.arcs()));
    assert_eq!(
        trainer.collector().seen,
        vec![
            (Transition::Shift, 0, 3),
            (Transition::Shift, 1, 2),
            (left("subj"), 2, 1),
            (Transition::Shift, 1, 1),
            (right("obj"), 2, 0),
        ]
    );
}

#[test]
fn trainer_gives_up_a_tree_with_crossing_arcs_and_goes_on() {
    let crossing = gold(4, &[(2, 1, "a"), (3, 1, "b"), (4, 2, "c")]);
    let fine = gold(2, &[(2, 1, "a")]);
    let mut trainer =
        GreedyTrainer::new(SystemKind::ArcHybrid, Recorder { seen: vec![], fail_at: None });
    let mut state = ParserState::new(&sentence(4));
    assert_eq!(trainer.parse_state(&crossing, &mut state), Err(Error::NonOracleTree));
    let before = trainer.collector().seen.len();
    let mut state = ParserState::new(&sentence(2));
    assert_eq!(trainer.parse_state(&fine, &mut state), Ok(()));
    assert_eq!(trainer.collector().seen.len(), before + 3);
    let collector = trainer.into_collector();
    assert_eq!(collector.seen.len(), before + 3);
}

#[test]
fn trainer_passes_on_the_failure_of_the_collector() {
    let tree = gold(3, &[(1, 2, "subj"), (3, 2, "obj")]);
    let mut trainer =
        GreedyTrainer::new(SystemKind::ArcEager, Recorder { seen: vec![], fail_at: Some(2) });
    let mut state = ParserState::new(&sentence(3));
    assert_eq!(trainer.parse_state(&tree, &mut state), Err(Error::Collector));
    assert_eq!(trainer.collector().seen.len(), 2);
    assert_eq!(state.stack_len() + state.buffer_len(), 2);
}

#[test]
fn noop_collector_numbers_the_transitions() {
    let tree = gold(3, &[(1, 2, "subj"), (3, 2, "obj")]);
    let collector =
        NoopCollector::new(TransitionSystem::new(SystemKind::ArcStandard), Sizes { width: 2 });
    let mut trainer = GreedyTrainer::new(SystemKind::ArcStandard, collector);
    let mut state = ParserState::new(&sentence(3));
    assert_eq!(trainer.parse_state(&tree, &mut state), Ok(()));
    let table = trainer.collector().transition_system().transitions();
    assert_eq!(table.to_list(), vec![Transition::Shift, left("subj"), right("obj")]);
    assert_eq!(table.lookup(&right("obj")), Some(3));
}

#[test]
fn noop_collector_with_a_frozen_table_fails_on_a_new_transition() {
    let mut system = TransitionSystem::new(SystemKind::ArcStandard);
    system.add(Transition::Shift).unwrap();
    system.freeze();
    let mut collector = NoopCollector::new(system, Sizes { width: 2 });
    let state = ParserState::new(&sentence(2));
    assert_eq!(collector.collect(&Transition::Shift, &state), Ok(()));
    assert_eq!(collector.collect(&left("a"), &state), Err(Error::FrozenTable));
    assert_eq!(collector.transition_system().transitions().len(), 1);
}

/// Two numbers for the token layer, one for the tag layer, none elsewhere.
struct Sizes {
    width: usize,
}

impl InputVectorizer for Sizes {
    fn layer_sizes(&self) -> LayerMap<usize> {
        LayerMap { token: 2, tag: 1, deprel: 0, feature: 0, chars: 0 }
    }

    fn realize(&self, state: &ParserState) -> LayerMap<Vec<i32>> {
        let s = state.stack_len() as i32;
        let b = state.buffer_len() as i32;
        LayerMap {
            token: vec![s; self.width],
            tag: vec![b],
            deprel: vec![],
            feature: vec![],
            chars: vec![],
        }
    }
}

#[test]
fn tensor_collector_fills_batches_of_a_fixed_size() {
    let tree = gold(3, &[(1, 2, "subj"), (3, 2, "obj")]);
    let collector =
        TensorCollector::new(TransitionSystem::new(SystemKind::ArcStandard), Sizes { width: 2 }, 2);
    let mut trainer = GreedyTrainer::new(SystemKind::ArcStandard, collector);
    let mut state = ParserState::new(&sentence(3));
    assert_eq!(trainer.parse_state(&tree, &mut state), Ok(()));
    let collector = trainer.into_collector();
    assert_eq!(collector.label_batches(), &vec![vec![1, 1], vec![2, 1], vec![3, 0]]);
    let inputs = collector.input_batches();
    assert_eq!(inputs.len(), 3);
    assert_eq!(inputs[0].0.get(Layer::Token).data(), &vec![0, 0, 1, 1]);
    assert_eq!(inputs[0].0.get(Layer::Tag).data(), &vec![3, 2]);
    assert_eq!(inputs[1].0.get(Layer::Token).data(), &vec![2, 2, 1, 1]);
    assert_eq!(inputs[1].0.get(Layer::Tag).data(), &vec![1, 1]);
    assert_eq!(inputs[2].0.get(Layer::Token).data(), &vec![2, 2, 0, 0]);
    assert_eq!(inputs[2].0.get(Layer::Tag).data(), &vec![0, 0]);
    assert_eq!(inputs[2].0.get(Layer::Char).data(), &Vec::<i32>::new());
    assert_eq!(collector.transition_system().transitions().len(), 3);
}

#[test]
fn tensor_collector_refuses_vectors_of_a_wrong_length() {
    let mut collector =
        TensorCollector::new(TransitionSystem::new(SystemKind::ArcStandard), Sizes { width: 3 }, 4);
    let state = ParserState::new(&sentence(2));
    assert_eq!(collector.collect(&Transition::Shift, &state), Err(Error::Collector));
}

#[test]
fn tensor_collector_steps() {
    let mut system = TransitionSystem::new(SystemKind::ArcStandard);
    system.add(Transition::Shift).unwrap();
    system.freeze();
    let mut collector = TensorCollector::new(system, Sizes { width: 2 }, 2);
    let fitting =
        LayerMap { token: vec![5, 6], tag: vec![7], deprel: vec![], feature: vec![], chars: vec![] };
    assert_eq!(collector.store(1, &fitting), Err(Error::Collector));
    assert!(collector.label_batches().is_empty());
    let huge = LayerMap { token: usize::MAX, tag: 1, deprel: 0, feature: 0, chars: 0 };
    assert_eq!(collector.open_batch(&huge), Err(Error::Collector));
    assert!(collector.label_batches().is_empty());
    let sizes = LayerMap { token: 2, tag: 1, deprel: 0, feature: 0, chars: 0 };
    assert_eq!(collector.open_batch(&sizes), Ok(()));
    assert_eq!(collector.label_batches(), &vec![vec![0, 0]]);
    assert_eq!(collector.input_batches()[0].0.token.data(), &vec![0, 0, 0, 0]);
    assert_eq!(collector.number(&Transition::Shift), Ok(1));
    assert_eq!(collector.number(&left("a")), Err(Error::FrozenTable));
    assert_eq!(collector.transition_system().transitions().len(), 1);
    assert_eq!(collector.store(1, &fitting), Ok(()));
    assert_eq!(collector.label_batches(), &vec![vec![1, 0]]);
    assert_eq!(collector.input_batches()[0].0.token.data(), &vec![5, 6, 0, 0]);
    assert_eq!(collector.open_batch(&huge), Ok(()));
    assert_eq!(collector.label_batches().len(), 1);
    let short =
        LayerMap { token: vec![9], tag: vec![8], deprel: vec![], feature: vec![], chars: vec![] };
    assert_eq!(collector.store(4, &short), Err(Error::Collector));
    assert_eq!(collector.label_batches(), &vec![vec![1, 4]]);
    assert_eq!(collector.input_batches()[0].0.tag.data(), &vec![7, 8]);
    assert_eq!(collector.store(1, &fitting), Ok(()));
    assert_eq!(collector.label_batches(), &vec![vec![1, 1]]);
    assert_eq!(collector.open_batch(&sizes), Ok(()));
    assert_eq!(collector.label_batches(), &vec![vec![1, 1], vec![0, 0]]);
}

#[test]
fn tensor_collector_numbers_a_transition_it_does_not_take() {
    let mut collector =
        TensorCollector::new(TransitionSystem::new(SystemKind::ArcStandard), Sizes { width: 3 }, 4);
    let state = ParserState::new(&sentence(2));
    assert_eq!(collector.collect(&Transition::Shift, &state), Err(Error::Collector));
    assert_eq!(collector.transition_system().transitions().lookup(&Transition::Shift), Some(1));
    assert_eq!(collector.label_batches(), &vec![vec![1, 0, 0, 0]]);
    assert_eq!(collector.input_batches()[0].0.tag.data(), &vec![2, 0, 0, 0]);
}

#[test]
fn trainer_holds_a_finished_state_against_the_tree() {
    let mut trainer =
        GreedyTrainer::new(SystemKind::ArcStandard, Recorder { seen: vec![], fail_at: Some(0) });
    let mut state = ParserState::new(&sentence(1));
    SystemKind::ArcStandard.apply(&Transition::Shift, &mut state).unwrap();
    assert_eq!(trainer.parse_state(&gold(1, &[]), &mut state), Ok(()));
    assert_eq!(trainer.parse_state(&gold(2, &[(2, 1, "a")]), &mut state), Err(Error::NonOracleTree));
    let mut empty = ParserState::new(&sentence(0));
    assert_eq!(trainer.parse_state(&gold(0, &[]), &mut empty), Ok(()));
    assert!(trainer.collector().seen.is_empty());
    let mut stuck = ParserState::new(&sentence(2));
    SystemKind::ArcStandard.apply(&Transition::Shift, &mut stuck).unwrap();
    SystemKind::ArcStandard.apply(&Transition::Shift, &mut stuck).unwrap();
    assert_eq!(trainer.parse_state(&gold(2, &[]), &mut stuck), Err(Error::NonOracleTree));
    assert_eq!(stuck.stack_len(), 2);
}

/// Fails as a frozen table would.
struct Frozen;

impl InstanceCollector for Frozen {
    fn collect(&mut self, _transition: &Transition, _state: &ParserState) -> Result<(), Error> {
        Err(Error::FrozenTable)
    }
}

#[test]
fn trainer_calls_every_failure_of_a_collector_a_collector_error() {
    let tree = gold(2, &[(2, 1, "a")]);
    let mut trainer = GreedyTrainer::new(SystemKind::ArcStandard, Frozen);
    let mut state = ParserState::new(&sentence(2));
    assert_eq!(trainer.parse_state(&tree, &mut state), Err(Error::Collector));
    assert_eq!(state.buffer_len(), 2);
}

#[test]
fn run_goes_on_after_a_tree_that_is_no_oracle_tree() {
    assert_eq!(after_sentence(Ok(()), 3), Ok(3));
    assert_eq!(after_sentence(Err(Error::NonOracleTree), 3), Ok(4));
    assert_eq!(after_sentence(Err(Error::NonOracleTree), usize::MAX), Ok(usize::MAX));
    assert_eq!(after_sentence(Err(Error::Collector), 3), Err(Error::Collector));
    assert_eq!(after_sentence(Err(Error::IllegalTransition), 0), Err(Error::IllegalTransition));
    let crossing = gold(4, &[(2, 1, "a"), (3, 1, "b"), (4, 2, "c")]);
    let fine = gold(2, &[(2, 1, "a")]);
    let collector =
        NoopCollector::new(TransitionSystem::new(SystemKind::ArcStandard), Sizes { width: 2 });
    let mut trainer = GreedyTrainer::new(SystemKind::ArcStandard, collector);
    let mut skipped = 0;
    for (n, tree) in [(4, &crossing), (2, &fine)] {
        let mut state = ParserState::new(&sentence(n));
        skipped = after_sentence(trainer.parse_state(tree, &mut state), skipped).unwrap();
    }
    assert_eq!(skipped, 1);
    assert!(trainer.collector().transition_system().transitions().lookup(&right("a")).is_some());
    assert_eq!(trainer.collector().input_vectorizer().width, 2);
}

#[test]
fn three_instances_in_batches_of_two() {
    let mut collector =
        TensorCollector::new(TransitionSystem::new(SystemKind::ArcStandard), Sizes { width: 2 }, 2);
    let mut state = ParserState::new(&sentence(3));
    for t in [Transition::Shift, right("x"), Transition::Shift] {
        if SystemKind::ArcStandard.is_legal(&t, &state) {
            assert_eq!(collector.collect(&t, &state), Ok(()));
            SystemKind::ArcStandard.apply(&t, &mut state).unwrap();
        } else {
            assert_eq!(collector.collect(&t, &state), Ok(()));
        }
    }
    assert_eq!(collector.label_batches(), &vec![vec![1, 2], vec![1, 0]]);
    assert_eq!(collector.input_batches().len(), 2);
    for batch in collector.input_batches() {
        assert_eq!((batch.0.token.rows(), batch.0.token.cols()), (2, 2));
        assert_eq!((batch.0.tag.rows(), batch.0.tag.cols()), (2, 1));
        assert_eq!((batch.0.chars.rows(), batch.0.chars.cols()), (2, 0));
    }
    assert_eq!(collector.input_batches()[0].0.token.data(), &vec![0, 0, 1, 1]);
    assert_eq!(collector.input_batches()[1].0.token.data(), &vec![1, 1, 0, 0]);
}

#[test]
fn matrix_rows() {
    let mut m = Matrix::zeros(3, 2).unwrap();
    assert_eq!((m.rows(), m.cols()), (3, 2));
    assert_eq!(m.data(), &vec![0; 6]);
    assert_eq!(m.row_range(0), (0, 2));
    assert_eq!(m.row_range(2), (4, 6));
    assert_eq!(m.set_row(1, &[7, 8]), Ok(()));
    assert_eq!(m.data(), &vec![0, 0, 7, 8, 0, 0]);
    assert_eq!(m.set_row(3, &[7, 8]), Err(Error::Collector));
    assert_eq!(m.set_row(1, &[7]), Err(Error::Collector));
    assert_eq!(m.data(), &vec![0, 0, 7, 8, 0, 0]);
    assert!(Matrix::zeros(usize::MAX, 2).is_none());
    assert!(Matrix::zeros(usize::MAX, 0).is_some());
}

#[test]
fn instance_is_written_where_it_fits() {
    let sizes = LayerMap { token: 2, tag: 1, deprel: 0, feature: 0, chars: 0 };
    let mut tensors = LayerTensors::zeros(2, &sizes).unwrap();
    let fitting =
        LayerMap { token: vec![5, 6], tag: vec![7], deprel: vec![], feature: vec![], chars: vec![] };
    assert_eq!(tensors.write_instance(1, &fitting), Ok(()));
    assert_eq!(tensors.0.token.data(), &vec![0, 0, 5, 6]);
    assert_eq!(tensors.0.tag.data(), &vec![0, 7]);
    let short =
        LayerMap { token: vec![9], tag: vec![8], deprel: vec![], feature: vec![], chars: vec![] };
    assert_eq!(tensors.write_instance(0, &short), Err(Error::Collector));
    assert_eq!(tensors.0.token.data(), &vec![0, 0, 5, 6]);
    assert_eq!(tensors.0.tag.data(), &vec![8, 7]);
    assert_eq!(tensors.write_instance(2, &fitting), Err(Error::Collector));
    assert_eq!(tensors.0.token.data(), &vec![0, 0, 5, 6]);
}

#[test]
fn instance_slices_of_a_batch() {
    let sizes = LayerMap { token: 4, tag: 3, deprel: 2, feature: 1, chars: 0 };
    let tensors = LayerTensors::zeros(5, &sizes).unwrap();
    let slices = tensors.to_instance_slices(2);
    assert_eq!(slices.token, (8, 12));
    assert_eq!(slices.tag, (6, 9));
    assert_eq!(slices.deprel, (4, 6));
    assert_eq!(slices.feature, (2, 3));
    assert_eq!(slices.chars, (0, 0));
    assert_eq!(*slices.get(Layer::Tag), (6, 9));
    assert!(LayerTensors::zeros(usize::MAX / 2, &sizes).is_none());
}
