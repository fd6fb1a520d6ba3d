use std::cmp::Ordering;
use std::collections::BTreeSet;
use vpa::{merge, Automaton, Call, CurryOpt, Deterministic, Edge, IllFormed, Kind, Range, Return, State, Wildcard};

fn act(name: &str) -> Call {
    Call::new(name.to_owned())
}

fn set(items: &[usize]) -> BTreeSet<usize> {
    items.iter().copied().collect()
}

#[test]
fn range_overlap_is_symmetric() {
    let ranges = [
        Range { first: 0u8, last: 3 },
        Range { first: 2, last: 5 },
        Range { first: 4, last: 4 },
        Range { first: 6, last: 9 },
        Range { first: 7, last: 1 },
    ];
    for a in &ranges {
        for b in &ranges {
            assert_eq!(a.overlap(b), b.overlap(a), "{a:?} {b:?}");
        }
    }
    assert!(ranges[0].overlap(&ranges[1]));
    assert!(!ranges[0].overlap(&ranges[3]));
    assert!(!ranges[4].overlap(&ranges[3]));
}

#[test]
fn range_contains_positions() {
    let r = Range { first: 10u32, last: 20 };
    assert_eq!(r.contains(&9), Ordering::Less);
    assert_eq!(r.contains(&10), Ordering::Equal);
    assert_eq!(r.contains(&15), Ordering::Equal);
    assert_eq!(r.contains(&20), Ordering::Equal);
    assert_eq!(r.contains(&21), Ordering::Greater);
}

#[test]
fn unit_range_holds_one_value() {
    let u = Range::unit('m');
    assert_eq!(u, Range { first: 'm', last: 'm' });
    assert_eq!(u.contains(&'m'), Ordering::Equal);
    assert_eq!(u.contains(&'l'), Ordering::Less);
    assert_eq!(u.contains(&'n'), Ordering::Greater);
}

#[test]
fn range_intersection_and_union() {
    let a = Range { first: 0u8, last: 3 };
    let b = Range { first: 2u8, last: 5 };
    let c = Range { first: 7u8, last: 9 };
    assert_eq!(a.intersection(&b), Some(Range { first: 2, last: 3 }));
    assert_eq!(b.intersection(&a), Some(Range { first: 2, last: 3 }));
    assert_eq!(a.union(&b), Some(Range { first: 0, last: 5 }));
    assert_eq!(a.intersection(&c), None);
    assert_eq!(a.union(&c), None);
}

#[test]
fn edge_merges_fuse_destinations() {
    let a: Edge<u8, BTreeSet<usize>> = Edge::Local { dst: set(&[0]), call: act("f") };
    let b: Edge<u8, BTreeSet<usize>> = Edge::Local { dst: set(&[1]), call: act("f") };
    let m = a.merge::<u8>(&b).unwrap();
    assert_eq!(m, Edge::Local { dst: set(&[0, 1]), call: act("f") });
    let c: Edge<u8, BTreeSet<usize>> = Edge::Call { dst: set(&[2]), call: act("f"), push: 4 };
    let d: Edge<u8, BTreeSet<usize>> = Edge::Call { dst: set(&[3]), call: act("f"), push: 4 };
    assert_eq!(
        c.clone().merge::<u8>(&d),
        Ok(Edge::Call { dst: set(&[2, 3]), call: act("f"), push: 4 })
    );
    let r: Edge<u8, BTreeSet<usize>> = Edge::Return { dst: set(&[1]), call: act("f") };
    let r2: Edge<u8, BTreeSet<usize>> = Edge::Return { dst: set(&[1]), call: act("f") };
    assert_eq!(r.clone().merge::<u8>(&r2), Ok(Edge::Return { dst: set(&[1]), call: act("f") }));
}

#[test]
fn edge_merge_errors() {
    let local: Edge<u8, usize> = Edge::Local { dst: 1, call: act("f") };
    let ret: Edge<u8, usize> = Edge::Return { dst: 1, call: act("f") };
    assert_eq!(
        local.clone().merge::<u8>(&ret),
        Err(IllFormed::EdgeMergeConflict(local.clone(), ret.clone()))
    );
    let other: Edge<u8, usize> = Edge::Local { dst: 2, call: act("f") };
    assert_eq!(local.clone().merge::<u8>(&other), Err(IllFormed::IndexMergeConflict(1, 2)));
    let renamed: Edge<u8, usize> = Edge::Local { dst: 1, call: act("g") };
    assert_eq!(
        local.clone().merge::<u8>(&renamed),
        Err(IllFormed::CallMergeConflict(act("f"), act("g")))
    );
    let push_one: Edge<u8, usize> = Edge::Call { dst: 1, call: act("f"), push: 1 };
    let push_two: Edge<u8, usize> = Edge::Call { dst: 1, call: act("f"), push: 2 };
    assert_eq!(push_one.merge::<u8>(&push_two), Err(IllFormed::PushMergeConflict(1, 2)));
}

#[test]
fn merge_folds_in_any_order() {
    let edges: Vec<Edge<u8, BTreeSet<usize>>> = vec![
        Edge::Local { dst: set(&[0]), call: act("f") },
        Edge::Local { dst: set(&[2]), call: act("f") },
        Edge::Local { dst: set(&[1]), call: act("f") },
    ];
    let mut reversed = edges.clone();
    reversed.reverse();
    let a = merge::<u8, u8, BTreeSet<usize>>(&edges).unwrap().unwrap();
    let b = merge::<u8, u8, BTreeSet<usize>>(&reversed).unwrap().unwrap();
    assert_eq!(a, b);
    assert_eq!(a, Edge::Local { dst: set(&[0, 1, 2]), call: act("f") });
    let none: Vec<Edge<u8, BTreeSet<usize>>> = vec![];
    assert!(merge::<u8, u8, BTreeSet<usize>>(&none).is_none());
    let clash: Vec<Edge<u8, BTreeSet<usize>>> = vec![
        Edge::Local { dst: set(&[0]), call: act("f") },
        Edge::Return { dst: set(&[0]), call: act("f") },
    ];
    assert!(matches!(
        merge::<u8, u8, BTreeSet<usize>>(&clash),
        Some(Err(IllFormed::EdgeMergeConflict(_, _)))
    ));
}

fn brackets() -> Deterministic<char, u8> {
    Automaton {
        states: vec![
            State {
                transitions: CurryOpt {
                    wildcard: None,
                    none: Some(Wildcard::Specific(vec![
                        (Range::unit('('), Return(Edge::Call { dst: 0, call: act("paren"), push: 1 })),
                        (Range::unit('['), Return(Edge::Call { dst: 0, call: act("square"), push: 2 })),
                        (Range { first: 'a', last: 'z' }, Return(Edge::Local { dst: 0, call: act("letter") })),
                    ])),
                    some: vec![
                        (
                            1,
                            Wildcard::Specific(vec![
                                (Range::unit('('), Return(Edge::Call { dst: 0, call: act("paren"), push: 1 })),
                                (Range::unit('['), Return(Edge::Call { dst: 0, call: act("square"), push: 2 })),
                                (Range::unit(')'), Return(Edge::Return { dst: 0, call: act("close") })),
                                (Range { first: 'a', last: 'z' }, Return(Edge::Local { dst: 0, call: act("letter") })),
                            ]),
                        ),
                        (
                            2,
                            Wildcard::Specific(vec![
                                (Range::unit('('), Return(Edge::Call { dst: 0, call: act("paren"), push: 1 })),
                                (Range::unit('['), Return(Edge::Call { dst: 0, call: act("square"), push: 2 })),
                                (Range::unit(']'), Return(Edge::Return { dst: 0, call: act("close") })),
                                (Range { first: 'a', last: 'z' }, Return(Edge::Local { dst: 0, call: act("letter") })),
                            ]),
                        ),
                    ],
                },
                accepting: true,
            },
        ],
        initial: 0,
    }
}

#[test]
fn stack_top_selects_layer() {
    let b = brackets();
    assert_eq!(b.check(), Ok(()));
    let cases = [("", true), ("ab", true), ("(a[b]c)", true), ("(]", false), ("[)", false), ("((", false), ("x)", false)];
    for (w, verdict) in cases {
        let input: Vec<char> = w.chars().collect();
        assert_eq!(b.accept(&input), Ok(verdict), "on {w:?}");
        let g = b.clone().generalize();
        let d = g.determinize().unwrap();
        assert_eq!(d.accept(&input), Ok(verdict), "determinized, on {w:?}");
    }
}

#[test]
fn execution_yields_input_in_order() {
    let b = brackets();
    let input: Vec<char> = "(ab)".chars().collect();
    let mut run = b.run(input.clone()).unwrap();
    let mut seen = vec![];
    while let Some(r) = run.next() {
        seen.push(r.unwrap());
    }
    assert_eq!(seen, input);
    assert_eq!(run.ctrl, Err(true));
    assert_eq!(run.position, 4);
    assert_eq!(run.next(), None);

    let bad: Vec<char> = ")ab".chars().collect();
    let mut run = b.run(bad.clone()).unwrap();
    let mut seen = vec![];
    while let Some(r) = run.next() {
        seen.push(r.unwrap());
    }
    assert_eq!(seen, bad);
    assert_eq!(run.ctrl, Err(false));
}

#[test]
fn deterministic_deabsurdify() {
    let mut empty: Deterministic<u8, u8> = Automaton { states: vec![], initial: 3 };
    assert!(!empty.deabsurdify());
    assert_eq!(empty.initial, 3);
    let mut d: Deterministic<u8, u8> = Automaton {
        states: vec![
            State {
                transitions: CurryOpt {
                    wildcard: Some(Wildcard::Specific(vec![(
                        Range { first: 0, last: 9 },
                        Return(Edge::Local { dst: 7, call: act("f") }),
                    )])),
                    none: Some(Wildcard::Specific(vec![(
                        Range { first: 5, last: 12 },
                        Return(Edge::Local { dst: 1, call: act("g") }),
                    )])),
                    some: vec![],
                },
                accepting: false,
            },
            State::default(),
        ],
        initial: 5,
    };
    assert!(d.check().is_err());
    assert!(d.deabsurdify());
    assert_eq!(d.check(), Ok(()));
    assert_eq!(d.initial, 1);
    match &d.states[0].transitions.wildcard {
        Some(Wildcard::Specific(v)) => assert_eq!(v[0].1 .0.dst(), &1),
        _ => panic!("wildcard layer lost"),
    }
}

#[test]
fn kind_names() {
    assert_eq!(Kind::Call.name(), "call");
    assert_eq!(Kind::Return.name(), "return");
    assert_eq!(Kind::Local.name(), "local");
}

#[test]
fn deabsurdify_drops_kind_inconsistent_entries() {
    let mut d: Deterministic<char, u8> = Automaton {
        states: vec![State {
            transitions: CurryOpt {
                wildcard: Some(Wildcard::Any(Return(Edge::Local { dst: 0, call: act("f") }))),
                none: Some(Wildcard::Specific(vec![
                    (Range::unit('('), Return(Edge::Return { dst: 0, call: act("g") })),
                    (Range::unit('['), Return(Edge::Call { dst: 0, call: act("h"), push: 1 })),
                ])),
                some: vec![],
            },
            accepting: true,
        }],
        initial: 0,
    };
    assert_eq!(d.check(), Err(IllFormed::CurryOptMergeConflict(None, Some(Range::unit('(')))));
    assert!(matches!(d.check_consistency(), Err(IllFormed::InconsistentKind(0, _, Kind::Local))));
    assert!(d.deabsurdify());
    assert_eq!(d.check(), Ok(()));
    assert_eq!(d.states[0].transitions.wildcard, Some(Wildcard::Specific(vec![])));
    assert_eq!(
        d.states[0].transitions.none,
        Some(Wildcard::Specific(vec![(Range::unit('['), Return(Edge::Call { dst: 0, call: act("h"), push: 1 }))]))
    );
}

#[test]
fn finished_execution_stays_finished() {
    let b = brackets();
    let mut run = b.run(vec!['(']).unwrap();
    assert_eq!(run.next(), Some(Ok('(')));
    assert_eq!(run.stack, vec![1u8]);
    assert_eq!(run.next(), None);
    assert_eq!(run.ctrl, Err(false));
    assert_eq!(run.stack, vec![1u8]);
    assert_eq!(run.next(), None);
    assert_eq!(run.ctrl, Err(false));
    assert_eq!(run.stack, vec![1u8]);
}

#[test]
fn finish_hands_back_the_input() {
    let b = brackets();
    let input: Vec<char> = "(a[b]c)".chars().collect();
    let mut run = b.run(input.clone()).unwrap();
    assert_eq!(run.next(), Some(Ok('(')));
    assert_eq!(run.finish(), Ok(input[1..].to_vec()));
    assert_eq!(run.ctrl, Err(true));
    let mut bad = b.run(vec![')', 'a']).unwrap();
    assert_eq!(bad.finish(), Ok(vec![')', 'a']));
    assert_eq!(bad.ctrl, Err(false));
}

#[test]
fn bounds_are_reported_before_kinds() {
    let d: Deterministic<char, u8> = Automaton {
        states: vec![State {
            transitions: CurryOpt {
                wildcard: Some(Wildcard::Any(Return(Edge::Local { dst: 1, call: act("f") }))),
                none: None,
                some: vec![],
            },
            accepting: false,
        }],
        initial: 0,
    };
    assert_eq!(d.check(), Err(IllFormed::OutOfBounds));
    assert_eq!(d.check_consistency(), Err(IllFormed::InconsistentKind(0, Kind::Call, Kind::Local)));
    let g = Automaton { states: d.states.clone(), initial: 3usize };
    assert_eq!(g.check(), Err(IllFormed::OutOfBounds));
}

#[test]
fn destination_clash_is_reported_before_action_clash() {
    let a: Edge<u8, usize> = Edge::Local { dst: 1, call: act("f") };
    let b: Edge<u8, usize> = Edge::Local { dst: 2, call: act("g") };
    assert_eq!(a.merge::<u8>(&b), Err(IllFormed::IndexMergeConflict(1, 2)));
}
