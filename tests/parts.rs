use std::collections::BTreeSet;
use vpa::{Automaton, Call, CurryOpt, Edge, IllFormed, Indices, Nondeterministic, Range, Return, State, Wildcard};

fn act(name: &str) -> Call {
    Call::new(name.to_owned())
}

fn set(items: &[usize]) -> BTreeSet<usize> {
    items.iter().copied().collect()
}

fn local(dst: usize) -> Return<Edge<u8, usize>> {
    Return(Edge::Local { dst, call: act("f") })
}

#[test]
fn wildcard_lookup_and_disjoint() {
    let w: Wildcard<u8, Return<Edge<u8, usize>>> =
        Wildcard::Specific(vec![(Range { first: 0, last: 3 }, local(0)), (Range { first: 5, last: 6 }, local(1))]);
    assert_eq!(w.get(&2), Some(&local(0)));
    assert_eq!(w.get(&6), Some(&local(1)));
    assert_eq!(w.get(&4), None);
    let any: Wildcard<u8, Return<Edge<u8, usize>>> = Wildcard::Any(local(2));
    assert_eq!(any.get(&200), Some(&local(2)));
    assert_eq!(any.disjoint(&any), Some(None));
    assert_eq!(any.disjoint(&w), Some(Some(Range { first: 0, last: 3 })));
    let far: Wildcard<u8, Return<Edge<u8, usize>>> = Wildcard::Specific(vec![(Range { first: 9, last: 9 }, local(0))]);
    assert_eq!(w.disjoint(&far), None);
    let near: Wildcard<u8, Return<Edge<u8, usize>>> = Wildcard::Specific(vec![(Range { first: 3, last: 5 }, local(0))]);
    assert_eq!(w.disjoint(&near), Some(Some(Range { first: 3, last: 3 })));
    let hollow: Wildcard<u8, Return<Edge<u8, usize>>> = Wildcard::Specific(vec![(Range { first: 5, last: 1 }, local(0))]);
    assert_eq!(any.disjoint(&hollow), None);
}

#[test]
fn wildcard_merge_rules() {
    let a: Wildcard<u8, Return<Edge<u8, usize>>> = Wildcard::Specific(vec![(Range { first: 0, last: 3 }, local(0))]);
    let b: Wildcard<u8, Return<Edge<u8, usize>>> = Wildcard::Specific(vec![(Range { first: 2, last: 5 }, local(0))]);
    assert_eq!(a.clone().merge(&b), Err(IllFormed::VecMergeConflict(Range { first: 2, last: 3 })));
    let c: Wildcard<u8, Return<Edge<u8, usize>>> = Wildcard::Specific(vec![(Range { first: 4, last: 5 }, local(1))]);
    assert_eq!(
        a.clone().merge(&c),
        Ok(Wildcard::Specific(vec![(Range { first: 0, last: 3 }, local(0)), (Range { first: 4, last: 5 }, local(1))]))
    );
    let any: Wildcard<u8, Return<Edge<u8, usize>>> = Wildcard::Any(local(0));
    assert_eq!(
        any.clone().merge(&a),
        Err(IllFormed::WildcardMergeConflict(vec![Range { first: 0, last: 3 }]))
    );
    let empty: Wildcard<u8, Return<Edge<u8, usize>>> = Wildcard::Specific(vec![]);
    assert_eq!(any.clone().merge(&empty), Ok(any.clone()));
    assert_eq!(empty.merge(&any), Ok(any.clone()));
    assert_eq!(any.clone().merge(&any), Ok(any.clone()));
}

#[test]
fn wildcard_remove_and_values() {
    let mut w: Wildcard<u8, Return<Edge<u8, usize>>> =
        Wildcard::Specific(vec![(Range { first: 0, last: 3 }, local(0)), (Range { first: 5, last: 6 }, local(1))]);
    assert_eq!(w.values(), vec![&Edge::Local { dst: 0, call: act("f") }, &Edge::Local { dst: 1, call: act("f") }]);
    w.remove(&Range { first: 0, last: 3 });
    assert_eq!(w, Wildcard::Specific(vec![(Range { first: 5, last: 6 }, local(1))]));
    w.remove(&Range { first: 7, last: 7 });
    assert_eq!(w, Wildcard::Specific(vec![(Range { first: 5, last: 6 }, local(1))]));
}

#[test]
fn table_keys_and_values() {
    let t: CurryOpt<u8, Wildcard<u8, Return<Edge<u8, usize>>>> = CurryOpt {
        wildcard: Some(Wildcard::Specific(vec![(Range { first: 9, last: 9 }, local(0))])),
        none: Some(Wildcard::Any(local(1))),
        some: vec![(4, Wildcard::Specific(vec![(Range { first: 0, last: 1 }, local(2))]))],
    };
    assert_eq!(t.keys_without_wildcard(), vec![None, Some(4)]);
    assert_eq!(t.values().len(), 3);
    assert_eq!(t.values_without_wildcard().len(), 2);
    assert_eq!(t.get(None, &9), Some(&local(0)));
    assert_eq!(t.get(None, &3), Some(&local(1)));
    assert_eq!(t.get(Some(&4), &1), Some(&local(2)));
    assert_eq!(t.get(Some(&4), &3), None);
    assert_eq!(t.get(Some(&5), &1), None);
    assert!(t.get_if_no_wildcard(Some(&4)).is_some());
    assert!(t.get_if_no_wildcard(Some(&3)).is_none());
}

#[test]
fn table_check_errors() {
    let shadowed: CurryOpt<u8, Wildcard<u8, Return<Edge<u8, usize>>>> = CurryOpt {
        wildcard: Some(Wildcard::Specific(vec![(Range { first: 0, last: 5 }, local(0))])),
        none: Some(Wildcard::Specific(vec![(Range { first: 5, last: 8 }, local(0))])),
        some: vec![],
    };
    assert_eq!(shadowed.check(1), Err(IllFormed::CurryOptMergeConflict(None, Some(Range { first: 5, last: 5 }))));
    let twice: CurryOpt<u8, Wildcard<u8, Return<Edge<u8, usize>>>> = CurryOpt {
        wildcard: None,
        none: None,
        some: vec![(4, Wildcard::Any(local(0))), (4, Wildcard::Any(local(0)))],
    };
    assert_eq!(
        twice.check(1),
        Err(IllFormed::MapMergeConflict(4, Wildcard::Any(local(0)), Wildcard::Any(local(0))))
    );
    let out: CurryOpt<u8, Wildcard<u8, Return<Edge<u8, usize>>>> =
        CurryOpt { wildcard: Some(Wildcard::Any(local(3))), none: None, some: vec![] };
    assert_eq!(out.check(3), Err(IllFormed::OutOfBounds));
    assert_eq!(out.check(4), Ok(()));
}

#[test]
fn table_merge_rules() {
    let a: CurryOpt<u8, Wildcard<u8, Return<Edge<u8, BTreeSet<usize>>>>> = CurryOpt {
        wildcard: None,
        none: None,
        some: vec![(1, Wildcard::Any(Return(Edge::Local { dst: set(&[0]), call: act("f") })))],
    };
    let b: CurryOpt<u8, Wildcard<u8, Return<Edge<u8, BTreeSet<usize>>>>> = CurryOpt {
        wildcard: None,
        none: None,
        some: vec![
            (1, Wildcard::Any(Return(Edge::Local { dst: set(&[1]), call: act("f") }))),
            (2, Wildcard::Specific(vec![])),
        ],
    };
    let m = a.clone().merge(&b).unwrap();
    assert_eq!(
        m.some,
        vec![
            (1, Wildcard::Any(Return(Edge::Local { dst: set(&[0, 1]), call: act("f") }))),
            (2, Wildcard::Specific(vec![])),
        ]
    );
    let clash: CurryOpt<u8, Wildcard<u8, Return<Edge<u8, BTreeSet<usize>>>>> = CurryOpt {
        wildcard: None,
        none: None,
        some: vec![(1, Wildcard::Any(Return(Edge::Return { dst: set(&[1]), call: act("f") })))],
    };
    assert!(matches!(a.clone().merge(&clash), Err(IllFormed::MapMergeConflict(1, _, _))));
    let wild: CurryOpt<u8, Wildcard<u8, Return<Edge<u8, BTreeSet<usize>>>>> = CurryOpt {
        wildcard: Some(Wildcard::Any(Return(Edge::Local { dst: set(&[0]), call: act("f") }))),
        none: None,
        some: vec![],
    };
    assert_eq!(a.merge(&wild), Err(IllFormed::CurryOptMergeConflict(Some(1), None)));
}

#[test]
fn state_merge_accepts_where_either_does() {
    let a: State<u8, u8, BTreeSet<usize>> = State { transitions: CurryOpt::default(), accepting: false };
    let b: State<u8, u8, BTreeSet<usize>> = State { transitions: CurryOpt::default(), accepting: true };
    assert!(a.clone().merge(&b).unwrap().accepting);
    assert!(!a.clone().merge(&a).unwrap().accepting);
}

#[test]
fn edge_destinations() {
    let mut e: Edge<u8, usize> = Edge::Call { dst: 3, call: act("f"), push: 1 };
    assert_eq!(e.dst(), &3);
    *e.dst_mut() = 5;
    assert_eq!(e, Edge::Call { dst: 5, call: act("f"), push: 1 });
    e.deabsurdify(4);
    assert_eq!(e.dst(), &1);
    assert_eq!(e.check::<u8>(2), Ok(()));
    assert_eq!(e.check::<u8>(1), Err(IllFormed::OutOfBounds));
    let mut stack = vec![];
    assert_eq!(e.clone().invoke(&mut stack), Ok(1));
    assert_eq!(stack, vec![1u8]);
    let r: Edge<u8, usize> = Edge::Return { dst: 0, call: act("f") };
    assert_eq!(r.clone().invoke(&mut stack), Ok(0));
    assert_eq!(stack, Vec::<u8>::new());
    assert_eq!(r.invoke(&mut stack), Err(false));
}

#[test]
fn control_values() {
    assert_eq!(<usize as Indices>::collect(vec![4]), Ok(4));
    assert_eq!(<usize as Indices>::collect(vec![]), Err(false));
    assert_eq!(<usize as Indices>::collect(vec![1, 2]), Err(true));
    assert_eq!(<BTreeSet<usize> as Indices>::collect(vec![3, 1, 3]), Ok(set(&[1, 3])));
    assert_eq!(<BTreeSet<usize> as Indices>::collect(vec![]), Err(false));
    assert_eq!(set(&[5, 2, 9]).to_vec(), vec![2, 5, 9]);
    assert_eq!(set(&[1]).fuse(&set(&[2])), Ok(set(&[1, 2])));
    assert_eq!(3usize.fuse(&4), Err((3, 4)));
    let mut s = set(&[1, 5, 9]);
    s.wrap(4);
    assert_eq!(s, set(&[1]));
}

#[test]
fn step_by_step() {
    let n: Nondeterministic<char, u8> = Automaton {
        states: vec![
            State {
                transitions: CurryOpt {
                    wildcard: Some(Wildcard::Any(Return(Edge::Call { dst: set(&[1]), call: act("f"), push: 7 }))),
                    none: None,
                    some: vec![],
                },
                accepting: false,
            },
            State { transitions: CurryOpt::default(), accepting: true },
        ],
        initial: set(&[0]),
    };
    let mut stack = vec![];
    assert_eq!(n.step(set(&[0]), &mut stack, Some(&'(')), Ok(Ok(set(&[1]))));
    assert_eq!(stack, vec![7]);
    assert_eq!(n.step(set(&[1]), &mut stack, None), Ok(Err(false)));
    stack.clear();
    assert_eq!(n.step(set(&[1]), &mut stack, None), Ok(Err(true)));
    assert_eq!(n.step(set(&[1]), &mut stack, Some(&'(')), Ok(Err(false)));
    assert_eq!(
        n.step(set(&[0]), &mut stack, Some(&'a')),
        Err(IllFormed::InconsistentKind(set(&[0]), vpa::Kind::Local, vpa::Kind::Call))
    );
    assert_eq!(n.step(set(&[2]), &mut stack, None), Err(IllFormed::OutOfBounds));
    assert_eq!(n.initial(), set(&[0]));
}

#[test]
fn nondeterministic_deabsurdify_clamps() {
    let mut n: Nondeterministic<u8, u8> = Automaton {
        states: vec![State {
            transitions: CurryOpt {
                wildcard: Some(Wildcard::Any(Return(Edge::Local { dst: set(&[3, 4]), call: act("f") }))),
                none: Some(Wildcard::Specific(vec![(Range { first: 0, last: 0 }, Return(Edge::Local { dst: set(&[0]), call: act("f") }))])),
                some: vec![],
            },
            accepting: true,
        }],
        initial: set(&[2]),
    };
    assert!(n.check().is_err());
    assert!(n.deabsurdify());
    assert_eq!(n.check(), Ok(()));
    assert_eq!(n.initial, set(&[0]));
    assert_eq!(n.states[0].transitions.none, Some(Wildcard::Specific(vec![])));
    assert_eq!(n.accept(&[1, 2]), Ok(true));
}
