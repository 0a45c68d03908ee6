use dpar::dependency::DependencySet;
use dpar::error::Error;
use dpar::gold::GoldTree;
use dpar::model::SystemKind;
use dpar::state::{ParserState, Token};
use dpar::transition::Transition;

fn sentence(n: usize) -> Vec<Token> {
    (0..n).map(|i| Token::new(format!("w{}", i + 1), "X".to_string())).collect()
}

fn arcs(n: usize, list: &[(usize, usize, &str)]) -> DependencySet {
    let mut set = DependencySet::new(n);
    for (modifier, head, label) in list {
        assert_eq!(set.insert(*modifier, *head, label.to_string()), Ok(()));
    }
    set
}

fn gold(n: usize, list: &[(usize, usize, &str)]) -> GoldTree {
    GoldTree::new(arcs(n, list))
}

fn left(label: &str) -> Transition {
    Transition::LeftArc(label.to_string())
}

fn right(label: &str) -> Transition {
    Transition::RightArc(label.to_string())
}

fn replay(kind: SystemKind, n: usize, transitions: &[Transition]) -> ParserState {
    let mut state = ParserState::new(&sentence(n));
    for t in transitions {
        assert!(kind.is_legal(t, &state));
        assert_eq!(kind.apply(t, &mut state), Ok(()));
    }
    assert!(kind.is_terminal(&state));
    state
}

const PROJECTIVE: [SystemKind; 4] = [
    SystemKind::ArcStandard,
    SystemKind::ArcEager,
    SystemKind::ArcHybrid,
    SystemKind::StackProjective,
];

const ALL: [SystemKind; 5] = [
    SystemKind::ArcStandard,
    SystemKind::ArcEager,
    SystemKind::ArcHybrid,
    SystemKind::StackProjective,
    SystemKind::StackSwap,
];

#[test]
fn arc_standard_oracle_of_three_tokens() {
    let tree = gold(3, &[(1, 2, "subj"), (3, 2, "obj")]);
    let found = SystemKind::ArcStandard.oracle_transitions(&sentence(3), &tree).unwrap();
    assert_eq!(
        found,
        vec![Transition::Shift, Transition::Shift, left("subj"), Transition::Shift, right("obj")]
    );
    let state = replay(SystemKind::ArcStandard, 3, &found);
    let built = state.to_dependency_set();
    assert!(built.same(&arcs(3, &[(1, 2, "subj"), (3, 2, "obj")])));
    assert_eq!(built.get(1).map(|d| (d.head, d.relation.as_str())), Some((2, "subj")));
    assert_eq!(built.get(3).map(|d| (d.head, d.relation.as_str())), Some((2, "obj")));
    assert!(built.get(2).is_none());
    assert_eq!(state.peek_stack(0), Some(2));
}

#[test]
fn arc_standard_right_arc_needs_two_stack_tokens() {
    let mut state = ParserState::new(&sentence(3));
    let kind = SystemKind::ArcStandard;
    for t in [Transition::Shift, Transition::Shift, left("subj")] {
        assert_eq!(kind.apply(&t, &mut state), Ok(()));
    }
    assert!(!kind.is_legal(&right("obj"), &state));
    assert_eq!(kind.apply(&right("obj"), &mut state), Err(Error::IllegalTransition));
    assert!(kind.is_legal(&Transition::Shift, &state));
}

#[test]
fn oracle_prefers_attaching_over_shifting() {
    let tree = gold(3, &[(1, 2, "a"), (2, 3, "b")]);
    let mut state = ParserState::new(&sentence(3));
    let kind = SystemKind::ArcStandard;
    assert_eq!(kind.apply(&Transition::Shift, &mut state), Ok(()));
    assert_eq!(kind.apply(&Transition::Shift, &mut state), Ok(()));
    assert!(kind.is_legal(&Transition::Shift, &state));
    assert_eq!(kind.static_oracle(&state, &tree), Ok(left("a")));
}

#[test]
fn oracle_waits_for_the_dependents_of_a_modifier() {
    let tree = gold(3, &[(2, 1, "a"), (3, 2, "b")]);
    let mut state = ParserState::new(&sentence(3));
    let kind = SystemKind::ArcStandard;
    assert_eq!(kind.apply(&Transition::Shift, &mut state), Ok(()));
    assert_eq!(kind.apply(&Transition::Shift, &mut state), Ok(()));
    assert_eq!(kind.static_oracle(&state, &tree), Ok(Transition::Shift));
    assert_eq!(kind.apply(&Transition::Shift, &mut state), Ok(()));
    assert_eq!(kind.static_oracle(&state, &tree), Ok(right("b")));
}

#[test]
fn oracles_round_trip_projective_trees() {
    let trees: Vec<(usize, Vec<(usize, usize, &str)>)> = vec![
        (1, vec![]),
        (2, vec![(1, 2, "a")]),
        (2, vec![(2, 1, "a")]),
        (3, vec![(1, 2, "subj"), (3, 2, "obj")]),
        (3, vec![(2, 1, "a"), (3, 2, "b")]),
        (3, vec![(1, 2, "a"), (2, 3, "b")]),
        (3, vec![(1, 3, "a"), (2, 3, "b")]),
        (3, vec![(2, 1, "a"), (3, 1, "b")]),
        (5, vec![(1, 2, "det"), (2, 3, "subj"), (5, 3, "obj"), (4, 5, "det")]),
        (6, vec![(2, 1, "a"), (3, 2, "b"), (4, 3, "c"), (5, 1, "d"), (6, 5, "e")]),
        (6, vec![(1, 6, "a"), (2, 3, "b"), (3, 1, "c"), (4, 5, "d"), (5, 1, "e")]),
    ];
    for kind in ALL {
        for (n, list) in &trees {
            let tree = gold(*n, list);
            let found = kind.oracle_transitions(&sentence(*n), &tree);
            let found = found.unwrap_or_else(|e| panic!("{:?} {:?}: {:?}", kind, list, e));
            assert_eq!(found.len(), 2 * n - 1, "{:?} {:?}", kind, list);
            let state = replay(kind, *n, &found);
            assert!(state.to_dependency_set().same(&arcs(*n, list)), "{:?} {:?}", kind, list);
        }
    }
}

#[test]
fn arc_eager_oracle_of_three_tokens() {
    let tree = gold(3, &[(1, 2, "subj"), (3, 2, "obj")]);
    let found = SystemKind::ArcEager.oracle_transitions(&sentence(3), &tree).unwrap();
    assert_eq!(
        found,
        vec![Transition::Shift, left("subj"), Transition::Shift, right("obj"), Transition::Reduce]
    );
}

#[test]
fn arc_hybrid_oracle_of_three_tokens() {
    let tree = gold(3, &[(1, 2, "subj"), (3, 2, "obj")]);
    let found = SystemKind::ArcHybrid.oracle_transitions(&sentence(3), &tree).unwrap();
    assert_eq!(
        found,
        vec![Transition::Shift, left("subj"), Transition::Shift, Transition::Shift, right("obj")]
    );
}

#[test]
fn crossing_arcs_are_no_oracle_tree_for_projective_systems() {
    let list = [(2, 1, "a"), (3, 1, "b"), (4, 2, "c")];
    for kind in PROJECTIVE {
        let tree = gold(4, &list);
        assert_eq!(
            kind.oracle_transitions(&sentence(4), &tree),
            Err(Error::NonOracleTree),
            "{:?}",
            kind
        );
    }
}

#[test]
fn stack_swap_builds_crossing_arcs() {
    let list = [(2, 1, "a"), (3, 1, "b"), (4, 2, "c")];
    let tree = gold(4, &list);
    let found = SystemKind::StackSwap.oracle_transitions(&sentence(4), &tree).unwrap();
    assert_eq!(
        found,
        vec![
            Transition::Shift,
            Transition::Shift,
            Transition::Shift,
            Transition::Shift,
            Transition::Swap,
            right("c"),
            right("a"),
            Transition::Shift,
            right("b"),
        ]
    );
    let state = replay(SystemKind::StackSwap, 4, &found);
    assert!(state.to_dependency_set().same(&arcs(4, &list)));
    assert_eq!(state.swaps(), 1);
}

#[test]
fn stack_swap_builds_other_non_projective_trees() {
    let trees: Vec<(usize, Vec<(usize, usize, &str)>)> = vec![
        (4, vec![(1, 3, "a"), (2, 4, "b"), (3, 4, "c")]),
        (5, vec![(1, 4, "a"), (2, 5, "b"), (3, 5, "c"), (4, 5, "d")]),
        (5, vec![(2, 1, "a"), (3, 5, "b"), (4, 1, "c"), (5, 2, "d")]),
    ];
    for (n, list) in &trees {
        let tree = gold(*n, list);
        let found = SystemKind::StackSwap.oracle_transitions(&sentence(*n), &tree).unwrap();
        let state = replay(SystemKind::StackSwap, *n, &found);
        assert!(state.to_dependency_set().same(&arcs(*n, list)), "{:?}", list);
        assert_eq!(found.len() as u128, 2 * (*n as u128) - 1 + 2 * state.swaps());
        for kind in PROJECTIVE {
            assert_eq!(
                kind.oracle_transitions(&sentence(*n), &tree),
                Err(Error::NonOracleTree)
            );
        }
    }
}

#[test]
fn projective_order_of_a_tree() {
    let tree = gold(4, &[(2, 1, "a"), (3, 1, "b"), (4, 2, "c")]);
    assert_eq!(tree.place(1), 0);
    assert_eq!(tree.place(2), 1);
    assert_eq!(tree.place(4), 2);
    assert_eq!(tree.place(3), 3);
}

#[test]
fn tokens_on_a_cycle_have_no_place_and_make_no_oracle_tree() {
    let tree = gold(3, &[(2, 3, "a"), (3, 2, "b")]);
    assert_eq!(tree.place(1), 0);
    assert_eq!(tree.place(2), 1);
    assert_eq!(tree.place(3), 1);
    for kind in ALL {
        assert_eq!(kind.oracle_transitions(&sentence(3), &tree), Err(Error::NonOracleTree));
    }
}

#[test]
fn two_roots_are_no_oracle_tree() {
    let tree = gold(3, &[(2, 1, "a")]);
    for kind in ALL {
        assert_eq!(kind.oracle_transitions(&sentence(3), &tree), Err(Error::NonOracleTree));
    }
}

#[test]
fn tree_of_another_length_is_no_oracle_tree() {
    let tree = gold(3, &[(1, 2, "a"), (3, 2, "b")]);
    for kind in ALL {
        assert_eq!(kind.oracle_transitions(&sentence(2), &tree), Err(Error::NonOracleTree));
        let state = ParserState::new(&sentence(4));
        assert_eq!(kind.static_oracle(&state, &tree), Err(Error::NonOracleTree));
    }
}

#[test]
fn empty_sentence_is_parsed_at_once() {
    let tree = gold(0, &[]);
    for kind in ALL {
        assert_eq!(kind.oracle_transitions(&sentence(0), &tree), Ok(vec![]));
        assert!(kind.is_terminal(&ParserState::new(&sentence(0))));
    }
}
