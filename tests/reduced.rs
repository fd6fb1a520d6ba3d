use std::collections::BTreeSet;
use std::iter;
use vpa::{Automaton, Call, CurryOpt, Edge, Nondeterministic, Range, Return, State, Wildcard};

fn identity() -> Call {
    Call::new("|x| x".to_owned())
}

fn deabsurdify_implies_check(mut nd: Nondeterministic<bool, bool>) {
    let pre = nd.clone();
    if !nd.deabsurdify() {
        return;
    }
    assert_eq!(nd.check(), Ok(()));
    assert_ne!(pre, nd, "Nothing changed--is this test off?");
}

fn determinization_implies_no_runtime_errors(nd: &Nondeterministic<bool, bool>, input: &[bool]) {
    let Ok(_d) = nd.determinize() else {
        return;
    };
    let mut run_nd = nd.run(input.to_vec()).unwrap();
    while let Some(r) = run_nd.next() {
        if let Err(e) = r {
            panic!("Nondeterministic automaton panicked (but determinization didn't): {e:?}");
        }
    }
    assert!(run_nd.ctrl.is_err());
    panic!("Ran to completion: is something wrong with this test?");
}

#[test]
fn deabsurdify_1() {
    deabsurdify_implies_check(Automaton {
        states: vec![State {
            transitions: CurryOpt {
                wildcard: None,
                none: None,
                some: iter::once((
                    false,
                    Wildcard::Specific(
                        [
                            (
                                Range {
                                    first: false,
                                    last: false,
                                },
                                Return(Edge::Return {
                                    dst: BTreeSet::new(),
                                    call: identity(),
                                }),
                            ),
                            (
                                Range {
                                    first: false,
                                    last: false,
                                },
                                Return(Edge::Return {
                                    dst: BTreeSet::new(),
                                    call: identity(),
                                }),
                            ),
                        ]
                        .into_iter()
                        .collect(),
                    ),
                ))
                .collect(),
            },
            accepting: false,
        }],
        initial: BTreeSet::new(),
    });
}

#[test]
fn deabsurdify_2() {
    deabsurdify_implies_check(Automaton {
        states: vec![State {
            transitions: CurryOpt {
                wildcard: None,
                none: Some(Wildcard::Specific(
                    [
                        (
                            Range {
                                first: false,
                                last: false,
                            },
                            Return(Edge::Local {
                                dst: BTreeSet::new(),
                                call: identity(),
                            }),
                        ),
                        (
                            Range {
                                first: false,
                                last: false,
                            },
                            Return(Edge::Call {
                                dst: BTreeSet::new(),
                                call: identity(),
                                push: false,
                            }),
                        ),
                    ]
                    .into_iter()
                    .collect(),
                )),
                some: Vec::new(),
            },
            accepting: false,
        }],
        initial: BTreeSet::new(),
    });
}

#[test]
fn deabsurdify_3() {
    deabsurdify_implies_check(Nondeterministic::<bool, bool> {
        states: vec![],
        initial: iter::once(1).collect(),
    });
}

#[test]
fn determinization_implies_no_runtime_errors_1() {
    determinization_implies_no_runtime_errors(
        &Nondeterministic::<bool, bool> {
            states: vec![],
            initial: iter::once(0).collect(),
        },
        &[],
    );
}
