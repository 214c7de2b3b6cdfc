//! Tests of the version space algebra: union, membership, intersection
//! checked by brute force on small finite spaces, and ranked extraction.

use std::rc::Rc;

use synthesizer::{Bank, Fun, Lit, AST, VSA};

fn s(x: &str) -> Lit {
    Lit::StringConst(x.to_string())
}

fn lit(l: Lit) -> AST {
    AST::Lit(l)
}

fn cat(a: AST, b: AST) -> AST {
    AST::App { fun: Fun::Concat, args: vec![a, b] }
}

fn leaf(items: Vec<AST>) -> VSA {
    let mut v = VSA::empty();
    for item in items {
        v = VSA::unify(Rc::new(v), Rc::new(VSA::singleton(item)));
    }
    v
}

#[test]
fn empty_and_singleton() {
    let e = VSA::empty();
    assert!(e.pick_one().is_none());
    assert!(!e.contains(&lit(Lit::Input)));
    let one = VSA::singleton(lit(Lit::Input));
    assert!(one.contains(&lit(Lit::Input)));
    assert!(!one.contains(&lit(s("x"))));
}

#[test]
fn unify_unions_the_sets() {
    let a = VSA::singleton(lit(s("a")));
    let b = VSA::singleton(lit(s("b")));
    let u = VSA::unify(Rc::new(a), Rc::new(b));
    assert!(u.contains(&lit(s("a"))));
    assert!(u.contains(&lit(s("b"))));
    assert!(!u.contains(&lit(s("c"))));
}

#[test]
fn intersect_only_keeps_shared_programs() {
    // brute force: every candidate in the intersection must be in both
    let a = leaf(vec![lit(s("a")), lit(s("b")), lit(s("c"))]);
    let b = leaf(vec![lit(s("b")), lit(s("c")), lit(s("d"))]);
    let i = a.intersect(&b);
    let candidates = vec![
        lit(s("a")),
        lit(s("b")),
        lit(s("c")),
        lit(s("d")),
        lit(s("e")),
        lit(Lit::Input),
    ];
    for c in &candidates {
        if i.contains(c) {
            assert!(a.contains(c) && b.contains(c));
        }
    }
    assert!(i.contains(&lit(s("b"))));
    assert!(i.contains(&lit(s("c"))));
    assert!(!i.contains(&lit(s("a"))));
    assert!(!i.contains(&lit(s("d"))));
}

#[test]
fn intersect_joins_and_leaves() {
    // a join of two leaves denotes every concat of one pick from each
    let join = VSA::Join {
        op: Fun::Concat,
        children: vec![
            Rc::new(leaf(vec![lit(s("a")), lit(s("b"))])),
            Rc::new(leaf(vec![lit(s("x"))])),
        ],
    };
    assert!(join.contains(&cat(lit(s("a")), lit(s("x")))));
    assert!(join.contains(&cat(lit(s("b")), lit(s("x")))));
    assert!(!join.contains(&cat(lit(s("x")), lit(s("a")))));

    let explicit = leaf(vec![
        cat(lit(s("a")), lit(s("x"))),
        cat(lit(s("x")), lit(s("a"))),
        lit(s("q")),
    ]);
    let i = join.intersect(&explicit);
    // brute force over the explicit leaf: kept programs are in both
    let candidates = vec![
        cat(lit(s("a")), lit(s("x"))),
        cat(lit(s("b")), lit(s("x"))),
        cat(lit(s("x")), lit(s("a"))),
        lit(s("q")),
    ];
    for c in &candidates {
        if i.contains(c) {
            assert!(join.contains(c) && explicit.contains(c));
        }
    }
    assert!(i.contains(&cat(lit(s("a")), lit(s("x")))));
    assert!(!i.contains(&cat(lit(s("x")), lit(s("a")))));
    assert!(!i.contains(&lit(s("q"))));
}

#[test]
fn intersect_mismatched_operators_is_empty() {
    let j1 = VSA::Join {
        op: Fun::Concat,
        children: vec![
            Rc::new(VSA::singleton(lit(s("a")))),
            Rc::new(VSA::singleton(lit(s("b")))),
        ],
    };
    let j2 = VSA::Join {
        op: Fun::Slice,
        children: vec![
            Rc::new(VSA::singleton(lit(Lit::LocConst(0)))),
            Rc::new(VSA::singleton(lit(Lit::LocConst(1)))),
        ],
    };
    let i = j1.intersect(&j2);
    assert!(i.pick_one().is_none());
}

#[test]
fn pick_one_walks_joins() {
    let join = VSA::Join {
        op: Fun::Concat,
        children: vec![
            Rc::new(VSA::singleton(lit(s("a")))),
            Rc::new(VSA::singleton(lit(s("b")))),
        ],
    };
    let picked = join.pick_one().unwrap();
    assert_eq!(picked, cat(lit(s("a")), lit(s("b"))));
    // a join with an empty child has no pick
    let hollow = VSA::Join {
        op: Fun::Concat,
        children: vec![Rc::new(VSA::singleton(lit(s("a")))), Rc::new(VSA::empty())],
    };
    assert!(hollow.pick_one().is_none());
}

#[test]
fn pick_best_prefers_cheap_programs() {
    // the input placeholder costs 0, a string constant costs 1
    let space = leaf(vec![lit(s("expensive")), lit(Lit::Input)]);
    let best = space.pick_best().unwrap();
    assert_eq!(best, lit(Lit::Input));
}

#[test]
fn bank_grow_to_is_idempotent() {
    let mut bank = Bank::new();
    bank.grow_to(4);
    bank.size_mut(2).push(lit(s("x")));
    let before: Vec<usize> = bank.entries.iter().map(|v| v.len()).collect();
    bank.grow_to(4);
    let after: Vec<usize> = bank.entries.iter().map(|v| v.len()).collect();
    assert_eq!(before, after);
    assert_eq!(bank.entries.len(), 4);
    assert_eq!(bank.size(2).len(), 1);
}
