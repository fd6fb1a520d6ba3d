use std::collections::BTreeSet;
use vpa::{
    Automaton, Call, CurryOpt, Deterministic, Edge, IllFormed, Kind, Nondeterministic, Range, Return,
    State, Wildcard,
};

fn act(name: &str) -> Call {
    Call::new(name.to_owned())
}

fn set(items: &[usize]) -> BTreeSet<usize> {
    items.iter().copied().collect()
}

fn parentheses() -> Deterministic<char, u8> {
    Automaton {
        states: vec![State {
            transitions: CurryOpt {
                wildcard: Some(Wildcard::Specific(vec![
                    (
                        Range::unit('('),
                        Return(Edge::Call {
                            dst: 0,
                            call: act("open"),
                            push: 0,
                        }),
                    ),
                    (
                        Range::unit(')'),
                        Return(Edge::Return {
                            dst: 0,
                            call: act("close"),
                        }),
                    ),
                ])),
                none: None,
                some: vec![],
            },
            accepting: true,
        }],
        initial: 0,
    }
}

fn chars(s: &str) -> Vec<char> {
    s.chars().collect()
}

#[test]
fn matched_parentheses_accept() {
    let p = parentheses();
    assert_eq!(p.check(), Ok(()));
    assert_eq!(p.accept(&chars("")), Ok(true));
    assert_eq!(p.accept(&chars("()")), Ok(true));
    assert_eq!(p.accept(&chars("(()())")), Ok(true));
    assert_eq!(p.accept(&chars(")")), Ok(false));
    assert_eq!(p.accept(&chars("(")), Ok(false));
    assert_eq!(p.accept(&chars("())(")), Ok(false));
}

#[test]
fn matched_parentheses_generalized() {
    let p = parentheses();
    let n = p.clone().generalize();
    assert_eq!(n.check(), Ok(()));
    for s in ["", "()", "(()())", ")", "(", "(()", "()()"] {
        assert_eq!(n.accept(&chars(s)).ok(), p.accept(&chars(s)).ok(), "on {s:?}");
    }
    let d = n.determinize().unwrap();
    assert_eq!(d.check(), Ok(()));
    for s in ["", "()", "(()())", ")", "(", "(()", "()()"] {
        assert_eq!(d.accept(&chars(s)), p.accept(&chars(s)), "on {s:?}");
    }
}

#[test]
fn empty_automaton_rejects() {
    let n: Nondeterministic<u8, u8> = Automaton {
        states: vec![],
        initial: BTreeSet::new(),
    };
    assert_eq!(n.accept(&[]), Ok(false));
    assert_eq!(n.accept(&[1, 2, 3]), Ok(false));
    assert_eq!(n.check(), Ok(()));
}

#[test]
fn unreachable_destination_is_out_of_bounds() {
    let d: Deterministic<u8, u8> = Automaton {
        states: vec![State {
            transitions: CurryOpt {
                wildcard: Some(Wildcard::Any(Return(Edge::Local {
                    dst: 1,
                    call: act("f"),
                }))),
                none: None,
                some: vec![],
            },
            accepting: false,
        }],
        initial: 0,
    };
    assert_eq!(d.check(), Err(IllFormed::OutOfBounds));
}

#[test]
fn initial_out_of_bounds() {
    let n: Nondeterministic<u8, u8> = Automaton {
        states: vec![],
        initial: set(&[0]),
    };
    assert_eq!(n.check(), Err(IllFormed::OutOfBounds));
    assert!(n.determinize().is_err());
}

#[test]
fn overlapping_ranges_conflict() {
    let d: Deterministic<u8, u8> = Automaton {
        states: vec![State {
            transitions: CurryOpt {
                wildcard: None,
                none: Some(Wildcard::Specific(vec![
                    (
                        Range { first: 0, last: 3 },
                        Return(Edge::Local {
                            dst: 0,
                            call: act("f"),
                        }),
                    ),
                    (
                        Range { first: 2, last: 5 },
                        Return(Edge::Local {
                            dst: 0,
                            call: act("f"),
                        }),
                    ),
                ])),
                some: vec![],
            },
            accepting: false,
        }],
        initial: 0,
    };
    assert_eq!(d.check(), Err(IllFormed::VecMergeConflict(Range { first: 2, last: 3 })));
}

#[test]
fn kind_inconsistency_surfaces() {
    let d: Deterministic<char, u8> = Automaton {
        states: vec![State {
            transitions: CurryOpt {
                wildcard: Some(Wildcard::Specific(vec![(
                    Range::unit('('),
                    Return(Edge::Return {
                        dst: 0,
                        call: act("f"),
                    }),
                )])),
                none: None,
                some: vec![],
            },
            accepting: true,
        }],
        initial: 0,
    };
    let expected = IllFormed::InconsistentKind(0, Kind::Call, Kind::Return);
    assert_eq!(d.check(), Err(expected.clone()));
    assert_eq!(d.check_consistency(), Err(expected.clone()));
    assert_eq!(d.accept(&chars("(")), Err(expected.clone()));
    assert_eq!(d.accept(&chars("")), Err(expected.clone()));
    assert!(matches!(d.run(chars("")), Err(IllFormed::InconsistentKind(0, Kind::Call, Kind::Return))));
    let mut stack = vec![];
    assert_eq!(d.step(0, &mut stack, Some(&'(')), Err(expected));
}

fn two_way() -> Nondeterministic<u8, u8> {
    let state = |dst: usize, accepting: bool| State {
        transitions: CurryOpt {
            wildcard: Some(Wildcard::Any(Return(Edge::Local {
                dst: set(&[dst]),
                call: act("step"),
            }))),
            none: None,
            some: vec![],
        },
        accepting,
    };
    Automaton {
        states: vec![state(0, false), state(1, true)],
        initial: set(&[0, 1]),
    }
}

#[test]
fn subset_construction_merges_initial_states() {
    let n = two_way();
    let d = n.determinize().unwrap();
    assert_eq!(d.states.len(), 1);
    assert_eq!(d.initial, 0);
    let edge = match &d.states[0].transitions.wildcard {
        Some(Wildcard::Any(Return(e))) => e.clone(),
        _ => panic!("expected a wildcard edge"),
    };
    assert_eq!(edge.dst(), &0);
    assert_eq!(edge.kind(), Kind::Local);
    assert!(d.states[0].accepting);
    for w in [vec![], vec![1u8], vec![1, 1], vec![1, 2, 3]] {
        assert_eq!(n.accept(&w).ok(), d.accept(&w).ok(), "on {w:?}");
        assert_eq!(d.accept(&w), Ok(true));
    }
}

#[test]
fn subset_construction_budget() {
    let n = two_way();
    assert_eq!(n.determinize_within(0), Err(IllFormed::Budget));
    assert!(n.determinize_within(1).is_ok());
    let chain: Nondeterministic<u8, u8> = Automaton {
        states: vec![
            State {
                transitions: CurryOpt {
                    wildcard: Some(Wildcard::Any(Return(Edge::Local {
                        dst: set(&[1]),
                        call: act("f"),
                    }))),
                    none: None,
                    some: vec![],
                },
                accepting: false,
            },
            State {
                transitions: CurryOpt {
                    wildcard: None,
                    none: None,
                    some: vec![],
                },
                accepting: true,
            },
        ],
        initial: set(&[0]),
    };
    assert_eq!(chain.determinize_within(1), Err(IllFormed::Budget));
    let d = chain.determinize_within(2).unwrap();
    assert_eq!(d.states.len(), 2);
    assert_eq!(d.accept(&[1]), Ok(true));
    assert_eq!(d.accept(&[]), Ok(false));
    assert_eq!(d.accept(&[1, 1]), Ok(false));
    assert_eq!(chain.accept(&[1, 1]), Ok(false));
}

#[test]
fn empty_subset_becomes_dead_state() {
    let n: Nondeterministic<u8, u8> = Automaton {
        states: vec![State {
            transitions: CurryOpt {
                wildcard: Some(Wildcard::Any(Return(Edge::Local {
                    dst: BTreeSet::new(),
                    call: act("f"),
                }))),
                none: None,
                some: vec![],
            },
            accepting: true,
        }],
        initial: set(&[0]),
    };
    let d = n.determinize().unwrap();
    assert_eq!(d.states.len(), 2);
    assert!(!d.states[1].accepting);
    for w in [vec![], vec![1u8], vec![1, 2, 3]] {
        assert_eq!(n.accept(&w).ok(), d.accept(&w).ok());
    }
    assert_eq!(d.accept(&[]), Ok(true));
    assert_eq!(d.accept(&[7]), Ok(false));
}

#[test]
fn merge_conflict_blocks_determinization() {
    let state = |push: u8| State {
        transitions: CurryOpt {
            wildcard: Some(Wildcard::Specific(vec![(
                Range::unit('('),
                Return(Edge::Call {
                    dst: set(&[0]),
                    call: act("f"),
                    push,
                }),
            )])),
            none: None,
            some: vec![],
        },
        accepting: false,
    };
    let n: Nondeterministic<char, u8> = Automaton {
        states: vec![state(1), state(2)],
        initial: set(&[0, 1]),
    };
    assert_eq!(n.check(), Ok(()));
    assert_eq!(
        n.determinize(),
        Err(IllFormed::VecMergeConflict(Range { first: '(', last: '(' }))
    );
    assert_eq!(n.accept(&chars("(")), Err(IllFormed::PushMergeConflict(1, 2)));
}

#[test]
fn dead_state_rejects() {
    let n: Nondeterministic<char, u8> = Automaton {
        states: vec![State {
            transitions: CurryOpt {
                wildcard: Some(Wildcard::Specific(vec![(
                    Range::unit('a'),
                    Return(Edge::Local {
                        dst: BTreeSet::new(),
                        call: act("f"),
                    }),
                )])),
                none: None,
                some: vec![],
            },
            accepting: false,
        }],
        initial: set(&[0]),
    };
    let d = n.determinize().unwrap();
    assert_eq!(d.check(), Ok(()));
    assert_eq!(d.states.len(), 2);
    assert_eq!(d.states[1].transitions, CurryOpt::default());
    for w in ["", "a", "ab", "a(", "a)x"] {
        assert_eq!(n.accept(&chars(w)), Ok(false), "on {w:?}");
        assert_eq!(d.accept(&chars(w)), Ok(false), "on {w:?}");
    }
}
