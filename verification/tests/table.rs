use dpar::dependency::DependencySet;
use dpar::error::Error;
use dpar::gold::GoldTree;
use dpar::model::SystemKind;
use dpar::scoring::NO_SCORE;
use dpar::state::{ParserState, Token};
use dpar::table::{TransitionSystem, TransitionTable};
use dpar::transition::Transition;

fn sentence(n: usize) -> Vec<Token> {
    (0..n).map(|i| Token::new(format!("w{}", i + 1), "X".to_string())).collect()
}

fn left(label: &str) -> Transition {
    Transition::LeftArc(label.to_string())
}

fn right(label: &str) -> Transition {
    Transition::RightArc(label.to_string())
}

#[test]
fn numbers_start_at_one_and_stay() {
    let mut table = TransitionTable::new();
    assert_eq!(table.len(), 0);
    assert_eq!(table.add(Transition::Shift), Ok(1));
    assert_eq!(table.add(left("subj")), Ok(2));
    assert_eq!(table.add(right("subj")), Ok(3));
    assert_eq!(table.add(left("obj")), Ok(4));
    assert_eq!(table.add(left("subj")), Ok(2));
    assert_eq!(table.add(Transition::Shift), Ok(1));
    assert_eq!(table.len(), 4);
    assert_eq!(table.lookup(&right("subj")), Some(3));
    assert_eq!(table.lookup(&right("obj")), None);
    assert_eq!(table.lookup(&Transition::Reduce), None);
    assert_eq!(table.value(0), None);
    assert_eq!(table.value(1), Some(&Transition::Shift));
    assert_eq!(table.value(4), Some(&left("obj")));
    assert_eq!(table.value(5), None);
}

#[test]
fn frozen_table_takes_no_new_transition() {
    let mut table = TransitionTable::new();
    assert_eq!(table.add(Transition::Shift), Ok(1));
    assert!(!table.is_frozen());
    table.freeze();
    assert!(table.is_frozen());
    assert_eq!(table.add(Transition::Shift), Ok(1));
    assert_eq!(table.add(Transition::Swap), Err(Error::FrozenTable));
    assert_eq!(table.len(), 1);
    assert_eq!(table.lookup(&Transition::Swap), None);
}

#[test]
fn stored_system_keeps_its_numbers() {
    let mut system = TransitionSystem::new(SystemKind::ArcEager);
    let met =
        vec![Transition::Shift, left("subj"), right("obj"), Transition::Reduce, left("det")];
    for t in &met {
        system.add(t.clone()).unwrap();
    }
    let (kind, list) = system.to_parts();
    assert_eq!(kind, SystemKind::ArcEager);
    assert_eq!(list, met);
    let loaded = TransitionSystem::from_parts(kind, list).unwrap();
    assert_eq!(loaded.kind(), SystemKind::ArcEager);
    assert!(loaded.transitions().is_frozen());
    assert_eq!(loaded.transitions().len(), system.transitions().len());
    for t in &met {
        assert_eq!(loaded.transitions().lookup(t), system.transitions().lookup(t));
    }
    for id in 0..8 {
        assert_eq!(loaded.transitions().value(id), system.transitions().value(id));
        assert_eq!(loaded.transition(id), system.transition(id));
    }
    let scores = [9, 1, 7, 8, 3, 2];
    let mut a = ParserState::new(&sentence(3));
    let mut b = ParserState::new(&sentence(3));
    loop {
        let before = system.best_number(&a, &scores);
        let after = loaded.best_number(&b, &scores);
        assert_eq!(before, after);
        let id = match before {
            Some(id) => id,
            None => break,
        };
        assert_eq!(kind.apply(&system.transition(id).unwrap(), &mut a), Ok(()));
        assert_eq!(kind.apply(&loaded.transition(id).unwrap(), &mut b), Ok(()));
    }
    assert!(a.to_dependency_set().same(&b.to_dependency_set()));
}

#[test]
fn list_with_a_transition_twice_makes_no_system() {
    let list = vec![Transition::Shift, left("a"), Transition::Shift];
    assert_eq!(TransitionTable::from_list(list.clone()).err(), Some(Error::Config));
    assert_eq!(TransitionSystem::from_parts(SystemKind::ArcStandard, list).err(), Some(Error::Config));
    let list = vec![left("a"), right("a"), left("b")];
    let table = TransitionTable::from_list(list.clone()).unwrap();
    assert_eq!(table.to_list(), list);
    assert_eq!(table.lookup(&left("b")), Some(3));
    assert!(TransitionTable::from_list(vec![]).is_ok());
}

#[test]
fn unknown_number_has_no_transition() {
    let mut system = TransitionSystem::new(SystemKind::ArcStandard);
    system.add(Transition::Shift).unwrap();
    assert_eq!(system.transition(0), Err(Error::UnknownLabel));
    assert_eq!(system.transition(1), Ok(Transition::Shift));
    assert_eq!(system.transition(2), Err(Error::UnknownLabel));
}

fn standard() -> TransitionSystem {
    let mut system = TransitionSystem::new(SystemKind::ArcStandard);
    for t in [Transition::Shift, left("a"), right("a"), left("b")] {
        system.add(t).unwrap();
    }
    system.freeze();
    system
}

#[test]
fn best_transition_is_the_legal_one_with_the_highest_score() {
    let system = standard();
    let mut state = ParserState::new(&sentence(3));
    let scores = [100, 1, 9, 5, 9];
    assert_eq!(system.best_number(&state, &scores), Some(1));
    assert_eq!(system.logits_best_transition(&state, &scores), Ok(Transition::Shift));
    SystemKind::ArcStandard.apply(&Transition::Shift, &mut state).unwrap();
    SystemKind::ArcStandard.apply(&Transition::Shift, &mut state).unwrap();
    assert_eq!(system.best_number(&state, &scores), Some(2));
    assert_eq!(system.logits_best_transition(&state, &scores), Ok(left("a")));
    assert_eq!(system.best_number(&state, &[0, 1, 2, 3, 4]), Some(4));
    assert_eq!(system.best_number(&state, &[0, 5, 2, 3, 4]), Some(1));
    assert_eq!(system.best_number(&state, &[0, -5, -2, -3, -4]), Some(2));
}

#[test]
fn numbers_outside_the_table_are_passed_over() {
    let system = standard();
    let state = ParserState::new(&sentence(2));
    assert_eq!(system.best_number(&state, &[0, 1, 2, 3, 4, 50, 60]), Some(1));
    assert_eq!(system.best_number(&state, &[0, 1]), Some(1));
    assert_eq!(system.best_number(&state, &[7]), None);
    assert_eq!(system.best_number(&state, &[]), None);
}

#[test]
fn no_legal_transition_with_a_score_is_an_error() {
    let system = standard();
    let state = ParserState::new(&sentence(2));
    assert_eq!(system.best_number(&state, &[0, NO_SCORE, 2, 3, 4]), None);
    assert_eq!(
        system.logits_best_transition(&state, &[0, NO_SCORE, 2, 3, 4]),
        Err(Error::IllegalTransition)
    );
    let done = ParserState::new(&sentence(0));
    assert_eq!(system.logits_best_transition(&done, &[0, 1, 2, 3, 4]), Err(Error::IllegalTransition));
}

#[test]
fn system_runs_its_rules() {
    let system = TransitionSystem::new(SystemKind::ArcEager);
    let mut state = system.initial_state(&sentence(2));
    assert!(system.is_legal(&Transition::Shift, &state));
    assert!(!system.is_legal(&Transition::Reduce, &state));
    assert_eq!(system.apply(&Transition::Reduce, &mut state), Err(Error::IllegalTransition));
    assert_eq!(system.apply(&Transition::Shift, &mut state), Ok(()));
    assert_eq!(system.apply(&right("a"), &mut state), Ok(()));
    assert!(!system.is_terminal(&state));
    assert_eq!(system.apply(&Transition::Reduce, &mut state), Ok(()));
    assert!(system.is_terminal(&state));
    let mut arcs = DependencySet::new(2);
    arcs.insert(2, 1, "a".to_string()).unwrap();
    let tree = GoldTree::new(arcs);
    let start = system.initial_state(&sentence(2));
    assert_eq!(system.static_oracle(&start, &tree), Ok(Transition::Shift));
}

#[test]
fn transition_labels() {
    assert_eq!(left("a").label().map(|s| s.as_str()), Some("a"));
    assert_eq!(right("b").label().map(|s| s.as_str()), Some("b"));
    assert_eq!(Transition::Shift.label(), None);
    assert_eq!(Transition::Reduce.label(), None);
    assert_eq!(Transition::Swap.label(), None);
    assert_ne!(left("a"), right("a"));
    assert_ne!(left("a"), left("b"));
    assert_eq!(left("a").clone(), left("a"));
}
