use dpar::dependency::DependencySet;
use dpar::error::Error;
use dpar::model::SystemKind;
use dpar::state::{ParserState, Token};
use dpar::transition::Transition;

fn sentence(n: usize) -> Vec<Token> {
    (0..n).map(|i| Token::new(format!("w{}", i + 1), format!("T{}", i + 1))).collect()
}

fn left(label: &str) -> Transition {
    Transition::LeftArc(label.to_string())
}

fn right(label: &str) -> Transition {
    Transition::RightArc(label.to_string())
}

fn stack(state: &ParserState) -> Vec<usize> {
    (0..state.stack_len()).rev().map(|d| state.peek_stack(d).unwrap()).collect()
}

fn run(kind: SystemKind, n: usize, transitions: &[Transition]) -> ParserState {
    let mut state = ParserState::new(&sentence(n));
    for t in transitions {
        assert_eq!(kind.apply(t, &mut state), Ok(()), "{:?}", t);
    }
    state
}

#[test]
fn initial_state_has_every_token_in_the_buffer() {
    let state = ParserState::new(&sentence(3));
    assert_eq!(state.len(), 3);
    assert_eq!(state.stack_len(), 0);
    assert_eq!(state.buffer_len(), 3);
    assert_eq!(state.peek_buffer_front(), Some(1));
    assert_eq!(state.peek_stack(0), None);
    assert_eq!(state.swaps(), 0);
    assert_eq!(state.tokens()[1].form(), "w2");
    assert_eq!(state.tokens()[1].tag(), "T2");
    for t in 0..5 {
        assert!(!state.is_attached(t));
        assert!(state.head(t).is_none());
    }
}

#[test]
fn stack_and_buffer_operations() {
    let mut state = ParserState::new(&sentence(3));
    assert_eq!(state.pop_buffer_front(), Some(1));
    assert_eq!(state.pop_buffer_front(), Some(2));
    assert_eq!(state.push_stack(1), Ok(()));
    assert_eq!(state.push_stack(2), Ok(()));
    assert_eq!(state.peek_stack(0), Some(2));
    assert_eq!(state.peek_stack(1), Some(1));
    assert_eq!(state.peek_stack(2), None);
    assert_eq!(state.peek_buffer_front(), Some(3));
    assert_eq!(state.peek_buffer(0), Some(3));
    assert_eq!(state.peek_buffer(1), None);
    assert_eq!(state.pop_stack(), Some(2));
    assert_eq!(state.pop_stack(), Some(1));
    assert_eq!(state.pop_stack(), None);
    assert_eq!(state.pop_buffer_front(), Some(3));
    assert_eq!(state.pop_buffer_front(), None);
    assert_eq!(state.push_stack(0), Err(Error::UnknownToken));
    assert_eq!(state.push_stack(4), Err(Error::UnknownToken));
    assert_eq!(state.stack_len(), 0);
}

#[test]
fn add_arc_never_replaces_a_head() {
    let mut state = ParserState::new(&sentence(3));
    assert_eq!(state.add_arc(1, 2, "subj".to_string()), Ok(()));
    assert_eq!(state.add_arc(1, 3, "obj".to_string()), Err(Error::AlreadyAttached));
    assert_eq!(state.add_arc(1, 2, "subj".to_string()), Err(Error::AlreadyAttached));
    let d = state.head(1).unwrap();
    assert_eq!((d.head, d.relation.as_str()), (2, "subj"));
    assert_eq!(state.add_arc(0, 2, "x".to_string()), Err(Error::UnknownToken));
    assert_eq!(state.add_arc(4, 2, "x".to_string()), Err(Error::UnknownToken));
    assert_eq!(state.add_arc(2, 0, "x".to_string()), Err(Error::UnknownToken));
    assert_eq!(state.add_arc(2, 4, "x".to_string()), Err(Error::UnknownToken));
    assert!(!state.is_attached(2));
    let set = state.to_dependency_set();
    assert_eq!(set.tokens(), 3);
    assert_eq!(set.get(1).map(|d| d.head), Some(2));
    assert!(set.get(2).is_none());
}

#[test]
fn dependency_set_insert_and_compare() {
    let mut a = DependencySet::new(3);
    assert_eq!(a.insert(1, 2, "subj".to_string()), Ok(()));
    assert_eq!(a.insert(1, 3, "subj".to_string()), Err(Error::AlreadyAttached));
    assert_eq!(a.insert(4, 1, "subj".to_string()), Err(Error::UnknownToken));
    assert_eq!(a.insert(2, 0, "subj".to_string()), Err(Error::UnknownToken));
    let mut b = DependencySet::new(3);
    assert!(!a.same(&b));
    assert_eq!(b.insert(1, 2, "obj".to_string()), Ok(()));
    assert!(!a.same(&b));
    let mut c = DependencySet::new(3);
    assert_eq!(c.insert(1, 2, "subj".to_string()), Ok(()));
    assert!(a.same(&c));
    let mut d = DependencySet::new(4);
    assert_eq!(d.insert(1, 2, "subj".to_string()), Ok(()));
    assert!(!a.same(&d));
    assert!(a.get(0).is_none());
    assert!(a.get(4).is_none());
}

#[test]
fn arc_standard_moves() {
    let kind = SystemKind::ArcStandard;
    let state = run(kind, 3, &[Transition::Shift, Transition::Shift, left("a")]);
    assert_eq!(stack(&state), vec![2]);
    assert_eq!(state.head(1).map(|d| d.head), Some(2));
    let state = run(kind, 3, &[Transition::Shift, Transition::Shift, right("a")]);
    assert_eq!(stack(&state), vec![1]);
    assert_eq!(state.head(2).map(|d| d.head), Some(1));
    assert_eq!(state.peek_buffer_front(), Some(3));
    assert!(!kind.is_legal(&Transition::Reduce, &state));
    assert!(!kind.is_legal(&Transition::Swap, &state));
}

#[test]
fn arc_eager_moves() {
    let kind = SystemKind::ArcEager;
    let state = run(kind, 3, &[Transition::Shift, left("a")]);
    assert_eq!(stack(&state), Vec::<usize>::new());
    assert_eq!(state.head(1).map(|d| d.head), Some(2));
    assert_eq!(state.peek_buffer_front(), Some(2));
    let mut state = run(kind, 3, &[Transition::Shift, right("a")]);
    assert_eq!(stack(&state), vec![1, 2]);
    assert_eq!(state.head(2).map(|d| d.head), Some(1));
    assert!(!kind.is_legal(&left("b"), &state));
    assert!(kind.is_legal(&Transition::Reduce, &state));
    assert_eq!(kind.apply(&Transition::Reduce, &mut state), Ok(()));
    assert_eq!(stack(&state), vec![1]);
    assert!(!kind.is_legal(&Transition::Reduce, &state));
    assert_eq!(kind.apply(&Transition::Reduce, &mut state), Err(Error::IllegalTransition));
}

#[test]
fn arc_eager_ends_only_when_all_but_the_root_have_heads() {
    let kind = SystemKind::ArcEager;
    let state = run(kind, 2, &[Transition::Shift, Transition::Shift]);
    assert!(!kind.is_terminal(&state));
    assert!(!state.is_terminal(kind));
    for t in [Transition::Shift, left("a"), right("a"), Transition::Reduce, Transition::Swap] {
        assert!(!kind.is_legal(&t, &state));
    }
    let state = run(kind, 2, &[Transition::Shift, right("a"), Transition::Reduce]);
    assert!(kind.is_terminal(&state));
    assert!(state.is_terminal(kind));
}

#[test]
fn arc_hybrid_moves() {
    let kind = SystemKind::ArcHybrid;
    let state = run(kind, 3, &[Transition::Shift, left("a")]);
    assert_eq!(stack(&state), Vec::<usize>::new());
    assert_eq!(state.head(1).map(|d| d.head), Some(2));
    let state = run(kind, 3, &[Transition::Shift, Transition::Shift, right("a")]);
    assert_eq!(stack(&state), vec![1]);
    assert_eq!(state.head(2).map(|d| d.head), Some(1));
    let state = run(kind, 2, &[Transition::Shift, Transition::Shift]);
    assert!(!kind.is_legal(&left("a"), &state));
    assert!(kind.is_legal(&right("a"), &state));
}

#[test]
fn stack_swap_moves() {
    let kind = SystemKind::StackSwap;
    let mut state = run(kind, 3, &[Transition::Shift, Transition::Shift, Transition::Swap]);
    assert_eq!(stack(&state), vec![2]);
    assert_eq!(state.peek_buffer_front(), Some(1));
    assert_eq!(state.buffer_len(), 2);
    assert_eq!(state.swaps(), 1);
    assert_eq!(kind.apply(&Transition::Shift, &mut state), Ok(()));
    assert_eq!(stack(&state), vec![2, 1]);
    assert!(!kind.is_legal(&Transition::Swap, &state));
    assert_eq!(kind.apply(&Transition::Swap, &mut state), Err(Error::IllegalTransition));
    for other in [
        SystemKind::ArcStandard,
        SystemKind::ArcEager,
        SystemKind::ArcHybrid,
        SystemKind::StackProjective,
    ] {
        let state = run(other, 3, &[Transition::Shift, Transition::Shift]);
        assert!(!other.is_legal(&Transition::Swap, &state));
    }
}

#[test]
fn swaps_are_capped_by_the_number_of_pairs() {
    let kind = SystemKind::StackSwap;
    let mut state = run(kind, 2, &[Transition::Shift, Transition::Shift, Transition::Swap]);
    assert!(!state.may_swap());
    assert_eq!(state.push_buffer_front(1), Err(Error::IllegalTransition));
    assert_eq!(state.push_buffer_front(3), Err(Error::UnknownToken));
    let single = ParserState::new(&sentence(1));
    assert!(!single.may_swap());
    let three = ParserState::new(&sentence(3));
    assert!(three.may_swap());
}

fn heads(state: &ParserState) -> Vec<usize> {
    (0..=state.len()).map(|t| state.head(t).map(|d| d.head).unwrap_or(0)).collect()
}

fn descends(heads: &[usize], mut x: usize, a: usize) -> bool {
    for _ in 0..heads.len() {
        x = heads[x];
        if x == a {
            return true;
        }
        if x == 0 {
            return false;
        }
    }
    false
}

fn is_tree(heads: &[usize]) -> bool {
    let n = heads.len() - 1;
    let roots = (1..=n).filter(|t| heads[*t] == 0).count();
    roots == 1 && (1..=n).all(|t| !descends(heads, t, t))
}

fn crosses(heads: &[usize]) -> bool {
    let n = heads.len() - 1;
    (1..=n).any(|m| {
        let h = heads[m];
        h != 0 && (m.min(h) + 1..m.max(h)).any(|k| !descends(heads, k, h))
    })
}

#[test]
fn shape_checks_tell_trees_and_crossings() {
    assert!(is_tree(&[0, 2, 0, 2]));
    assert!(!is_tree(&[0, 2, 1, 0]));
    assert!(!is_tree(&[0, 0, 0]));
    assert!(!crosses(&[0, 2, 0, 2]));
    assert!(crosses(&[0, 0, 1, 1, 2]));
}

#[test]
fn any_legal_walk_takes_two_n_minus_one_steps() {
    let moves = [
        Transition::Shift,
        left("l"),
        right("r"),
        Transition::Reduce,
    ];
    for kind in [
        SystemKind::ArcStandard,
        SystemKind::ArcEager,
        SystemKind::ArcHybrid,
        SystemKind::StackProjective,
    ] {
        for n in 1..6usize {
            for seed in 0..40u64 {
                let mut state = ParserState::new(&sentence(n));
                let mut steps = 0;
                let mut x = seed * 2654435761 + 12345;
                loop {
                    assert!(!crosses(&heads(&state)));
                    let on_stack = stack(&state);
                    let waiting: Vec<usize> =
                        (0..state.buffer_len()).map(|d| state.peek_buffer(d).unwrap()).collect();
                    for t in 1..=n {
                        let places = on_stack.iter().filter(|x| **x == t).count()
                            + waiting.iter().filter(|x| **x == t).count();
                        assert!(places <= 1);
                        assert!(places == 1 || state.is_attached(t));
                        assert!(!(waiting.contains(&t) && state.is_attached(t)));
                    }
                    if kind.is_terminal(&state) {
                        assert_eq!(steps, 2 * n - 1);
                        let attached = (1..=n).filter(|t| state.is_attached(*t)).count();
                        assert_eq!(attached, n - 1);
                        assert!(is_tree(&heads(&state)));
                        break;
                    }
                    let legal: Vec<&Transition> =
                        moves.iter().filter(|t| kind.is_legal(t, &state)).collect();
                    if legal.is_empty() {
                        assert_eq!(kind, SystemKind::ArcEager);
                        break;
                    }
                    x = x.wrapping_mul(6364136223846793005).wrapping_add(1442695040888963407);
                    let t = legal[(x >> 33) as usize % legal.len()];
                    assert_eq!(kind.apply(t, &mut state), Ok(()));
                    steps += 1;
                    assert!(steps <= 2 * n - 1);
                }
            }
        }
    }
}

#[test]
fn any_legal_walk_with_swaps_ends() {
    let kind = SystemKind::StackSwap;
    let moves = [Transition::Swap, Transition::Shift, left("l"), right("r")];
    for n in 1..7usize {
        for seed in 0..40u64 {
            let mut state = ParserState::new(&sentence(n));
            let mut steps: u128 = 0;
            let mut x = seed * 2654435761 + 99;
            while !kind.is_terminal(&state) {
                let legal: Vec<&Transition> =
                    moves.iter().filter(|t| kind.is_legal(t, &state)).collect();
                assert!(!legal.is_empty());
                x = x.wrapping_mul(6364136223846793005).wrapping_add(1442695040888963407);
                let pick = if seed % 2 == 0 { 0 } else { (x >> 33) as usize % legal.len() };
                assert_eq!(kind.apply(legal[pick], &mut state), Ok(()));
                steps += 1;
            }
            assert_eq!(steps, 2 * n as u128 - 1 + 2 * state.swaps());
            assert!(is_tree(&heads(&state)));
            assert!(state.swaps() <= (n * (n - 1) / 2) as u128);
            assert!(steps <= (n * n + n - 1) as u128);
        }
    }
}

#[test]
fn error_messages() {
    assert_eq!(Error::IllegalTransition.message(), "transition is not legal in this state");
    assert_eq!(Error::NonOracleTree.message(), "gold tree cannot be built by this transition system");
    assert_eq!(Error::AlreadyAttached.message(), "token already has a head");
    assert_eq!(Error::UnknownLabel.message(), "transition identifier is not in the table");
    assert_eq!(Error::UnknownToken.message(), "index is not a token of the sentence");
    assert_eq!(Error::FrozenTable.message(), "transition table is frozen");
    assert_eq!(Error::BatchMismatch.message(), "guide returned a wrong number of transitions");
    assert_eq!(Error::Collector.message(), "collector did not take the instance");
    assert_eq!(Error::Config.message(), "configuration is not supported");
}
