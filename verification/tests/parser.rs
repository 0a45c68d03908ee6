use dpar::dependency::DependencySet;
use dpar::error::Error;
use dpar::gold::GoldTree;
use dpar::guide::{BatchGuide, Guide};
use dpar::model::SystemKind;
use dpar::parser::{active_positions, apply_round, waiting_states, GreedyParser};
use dpar::state::{ParserState, Token};
use dpar::transition::Transition;

fn words(forms: &[&str]) -> Vec<Token> {
    forms.iter().map(|f| Token::new(f.to_string(), "X".to_string())).collect()
}

fn arcs(n: usize, list: &[(usize, usize, &str)]) -> DependencySet {
    let mut set = DependencySet::new(n);
    for (modifier, head, label) in list {
        assert_eq!(set.insert(*modifier, *head, label.to_string()), Ok(()));
    }
    set
}

/// Plays back a list of transitions, whatever the state.
struct Script {
    transitions: Vec<Transition>,
    next: usize,
}

impl Script {
    fn new(transitions: Vec<Transition>) -> Script {
        Script { transitions, next: 0 }
    }
}

impl Guide for Script {
    fn best_transition(&mut self, _state: &ParserState) -> Transition {
        let t = self.transitions[self.next].clone();
        self.next += 1;
        t
    }
}

/// Follows the static oracle of the gold tree that belongs to a sentence;
/// a sentence is known by its first word.
struct Oracles {
    kind: SystemKind,
    trees: Vec<(String, GoldTree)>,
    calls: Vec<usize>,
}

impl Oracles {
    fn new(kind: SystemKind) -> Oracles {
        Oracles { kind, trees: Vec::new(), calls: Vec::new() }
    }

    fn with(mut self, first: &str, n: usize, list: &[(usize, usize, &str)]) -> Oracles {
        self.trees.push((first.to_string(), GoldTree::new(arcs(n, list))));
        self
    }

    fn pick(&self, state: &ParserState) -> Transition {
        let first = state.tokens()[0].form();
        let tree = &self.trees.iter().find(|(f, _)| f == first).unwrap().1;
        self.kind.static_oracle(state, tree).unwrap()
    }
}

impl Guide for Oracles {
    fn best_transition(&mut self, state: &ParserState) -> Transition {
        self.calls.push(1);
        self.pick(state)
    }
}

impl BatchGuide for Oracles {
    fn best_transitions(&mut self, states: &[&ParserState]) -> Vec<Transition> {
        self.calls.push(states.len());
        states.iter().map(|s| self.pick(s)).collect()
    }
}

fn corpus() -> Vec<(Vec<Token>, Vec<(usize, usize, &'static str)>)> {
    vec![
        (words(&["a"]), vec![]),
        (words(&["b", "x", "y"]), vec![(1, 2, "subj"), (3, 2, "obj")]),
        (words(&["c", "x"]), vec![(2, 1, "mod")]),
        (words(&["d", "x", "y", "z", "w"]), vec![(1, 2, "det"), (2, 3, "subj"), (5, 3, "obj"), (4, 5, "det")]),
    ]
}

fn oracles(kind: SystemKind) -> Oracles {
    let mut guide = Oracles::new(kind);
    for (sentence, list) in corpus() {
        let first = sentence[0].form().clone();
        guide = guide.with(&first, sentence.len(), &list);
    }
    guide
}

const ALL: [SystemKind; 5] = [
    SystemKind::ArcStandard,
    SystemKind::ArcEager,
    SystemKind::ArcHybrid,
    SystemKind::StackProjective,
    SystemKind::StackSwap,
];

#[test]
fn parse_follows_the_guide() {
    let script = Script::new(vec![
        Transition::Shift,
        Transition::Shift,
        Transition::LeftArc("subj".to_string()),
        Transition::Shift,
        Transition::RightArc("obj".to_string()),
    ]);
    let mut parser = GreedyParser::new(SystemKind::ArcStandard, script);
    let parsed = parser.parse(&words(&["he", "sees", "her"])).unwrap();
    assert!(parsed.same(&arcs(3, &[(1, 2, "subj"), (3, 2, "obj")])));
    assert_eq!(parser.guide().next, 5);
}

#[test]
fn parse_never_takes_a_transition_back() {
    let script = Script::new(vec![
        Transition::Shift,
        Transition::Shift,
        Transition::RightArc("wrong".to_string()),
        Transition::Shift,
        Transition::LeftArc("obj".to_string()),
    ]);
    let mut parser = GreedyParser::new(SystemKind::ArcStandard, script);
    let parsed = parser.parse(&words(&["he", "sees", "her"])).unwrap();
    assert!(parsed.same(&arcs(3, &[(2, 1, "wrong"), (1, 3, "obj")])));
}

#[test]
fn parse_ends_at_an_illegal_transition() {
    let script = Script::new(vec![Transition::Shift, Transition::LeftArc("x".to_string())]);
    let mut parser = GreedyParser::new(SystemKind::ArcStandard, script);
    assert_eq!(parser.parse(&words(&["a", "b"])).err(), Some(Error::IllegalTransition));
    let script = Script::new(vec![Transition::Shift, Transition::Reduce]);
    let mut parser = GreedyParser::new(SystemKind::ArcHybrid, script);
    assert_eq!(parser.parse(&words(&["a", "b"])).err(), Some(Error::IllegalTransition));
    let script = Script::new(vec![Transition::Shift, Transition::Shift, Transition::Swap]);
    let mut parser = GreedyParser::new(SystemKind::ArcEager, script);
    assert_eq!(parser.parse(&words(&["a", "b"])).err(), Some(Error::IllegalTransition));
}

#[test]
fn parse_of_an_empty_sentence_asks_nothing() {
    for kind in ALL {
        let mut parser = GreedyParser::new(kind, Script::new(vec![]));
        let parsed = parser.parse(&[]).unwrap();
        assert_eq!(parsed.tokens(), 0);
        assert_eq!(parser.guide().next, 0);
        assert_eq!(parser.kind(), kind);
    }
}

#[test]
fn parse_takes_two_n_minus_one_transitions() {
    for kind in [
        SystemKind::ArcStandard,
        SystemKind::ArcEager,
        SystemKind::ArcHybrid,
        SystemKind::StackProjective,
    ] {
        for (sentence, list) in corpus() {
            let mut parser = GreedyParser::new(kind, oracles(kind));
            let parsed = parser.parse(&sentence).unwrap();
            assert!(parsed.same(&arcs(sentence.len(), &list)));
            assert_eq!(parser.guide().calls.len(), 2 * sentence.len() - 1);
        }
    }
}

#[test]
fn batch_gives_what_single_parses_give() {
    for kind in ALL {
        let sentences: Vec<Vec<Token>> = corpus().into_iter().map(|(s, _)| s).collect();
        let mut single = GreedyParser::new(kind, oracles(kind));
        let one_by_one: Vec<DependencySet> =
            sentences.iter().map(|s| single.parse(s).unwrap()).collect();
        let mut batched = GreedyParser::new(kind, oracles(kind));
        let together = batched.parse_batch(&sentences).unwrap();
        assert_eq!(together.len(), sentences.len());
        for (i, (_, list)) in corpus().iter().enumerate() {
            assert!(together[i].same(&one_by_one[i]), "{:?} {}", kind, i);
            assert!(together[i].same(&arcs(sentences[i].len(), list)));
        }
    }
}

#[test]
fn batch_asks_once_a_round_for_the_states_that_have_not_ended() {
    let sentences: Vec<Vec<Token>> = corpus().into_iter().map(|(s, _)| s).collect();
    let mut parser = GreedyParser::new(SystemKind::ArcStandard, oracles(SystemKind::ArcStandard));
    parser.parse_batch(&sentences).unwrap();
    assert_eq!(parser.guide().calls, vec![4, 3, 3, 2, 2, 1, 1, 1, 1]);
}

#[test]
fn batch_of_nothing_asks_nothing() {
    let mut parser = GreedyParser::new(SystemKind::ArcEager, oracles(SystemKind::ArcEager));
    assert_eq!(parser.parse_batch(&[]).unwrap().len(), 0);
    assert!(parser.guide().calls.is_empty());
}

struct Short;

impl BatchGuide for Short {
    fn best_transitions(&mut self, states: &[&ParserState]) -> Vec<Transition> {
        states.iter().skip(1).map(|_| Transition::Shift).collect()
    }
}

struct Stubborn;

impl BatchGuide for Stubborn {
    fn best_transitions(&mut self, states: &[&ParserState]) -> Vec<Transition> {
        states.iter().map(|_| Transition::Shift).collect()
    }
}

#[test]
fn batch_guide_with_too_few_transitions_is_a_mismatch() {
    let mut parser = GreedyParser::new(SystemKind::ArcStandard, Short);
    let sentences = vec![words(&["a", "b"]), words(&["c"])];
    assert_eq!(parser.parse_batch(&sentences).err(), Some(Error::BatchMismatch));
}

#[test]
fn batch_ends_at_an_illegal_transition() {
    let mut parser = GreedyParser::new(SystemKind::ArcStandard, Stubborn);
    let sentences = vec![words(&["a", "b"]), words(&["c"])];
    assert_eq!(parser.parse_batch(&sentences).err(), Some(Error::IllegalTransition));
}

#[test]
fn active_positions_are_those_of_unfinished_parses() {
    let kind = SystemKind::ArcStandard;
    let mut states = vec![
        ParserState::new(&words(&["a"])),
        ParserState::new(&[]),
        ParserState::new(&words(&["c", "d"])),
    ];
    assert_eq!(active_positions(kind, &states), vec![0, 2]);
    assert_eq!(
        apply_round(kind, &mut states, &vec![0, 2], &vec![Transition::Shift, Transition::Shift]),
        Ok(())
    );
    assert_eq!(states[0].stack_len(), 1);
    assert_eq!(states[1].stack_len(), 0);
    assert_eq!(states[2].stack_len(), 1);
    assert_eq!(states[2].buffer_len(), 1);
    assert_eq!(active_positions(kind, &states), vec![2]);
    assert_eq!(
        apply_round(kind, &mut states, &vec![2], &vec![]),
        Err(Error::BatchMismatch)
    );
    assert_eq!(
        apply_round(kind, &mut states, &vec![2], &vec![Transition::Reduce]),
        Err(Error::IllegalTransition)
    );
    assert_eq!(states[2].stack_len(), 1);
}

#[test]
fn waiting_states_are_those_at_the_positions() {
    let states = vec![
        ParserState::new(&words(&["a"])),
        ParserState::new(&[]),
        ParserState::new(&words(&["c", "d"])),
        ParserState::new(&words(&["e", "f", "g"])),
    ];
    let waiting = waiting_states(&states, &vec![0, 2, 3]);
    let lengths: Vec<usize> = waiting.iter().map(|s| s.len()).collect();
    assert_eq!(lengths, vec![1, 2, 3]);
    assert!(waiting_states(&states, &vec![]).is_empty());
}

/// Tells which sentences it is shown in each call.
struct Watcher {
    shown: Vec<Vec<String>>,
}

impl BatchGuide for Watcher {
    fn best_transitions(&mut self, states: &[&ParserState]) -> Vec<Transition> {
        self.shown.push(states.iter().map(|s| s.tokens()[0].form().clone()).collect());
        states
            .iter()
            .map(|s| {
                if s.buffer_len() > 0 {
                    Transition::Shift
                } else {
                    Transition::RightArc("x".to_string())
                }
            })
            .collect()
    }
}

#[test]
fn batch_guide_is_shown_the_unfinished_states_in_order() {
    let mut parser = GreedyParser::new(SystemKind::ArcStandard, Watcher { shown: vec![] });
    let sentences = vec![words(&["a", "x"]), vec![], words(&["c"]), words(&["d", "x", "y"])];
    let parsed = parser.parse_batch(&sentences).unwrap();
    assert_eq!(parsed.len(), 4);
    assert_eq!(parsed[1].tokens(), 0);
    let shown: Vec<Vec<&str>> =
        parser.guide().shown.iter().map(|r| r.iter().map(|s| s.as_str()).collect()).collect();
    assert_eq!(
        shown,
        vec![vec!["a", "c", "d"], vec!["a", "d"], vec!["a", "d"], vec!["d"], vec!["d"]]
    );
}
