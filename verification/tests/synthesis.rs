//! End-to-end synthesis: round-trips on the training examples,
//! generalization to unseen inputs, and the explicit absent result when
//! no consistent program exists within the cap.

use synthesizer::{synthesize, Lit, RegexCache, AST};

fn run(examples: &[(&str, &str)]) -> Option<AST> {
    let owned: Vec<(String, String)> =
        examples.iter().map(|(i, o)| (i.to_string(), o.to_string())).collect();
    synthesize(&owned)
}

fn eval_str(prog: &AST, input: &str) -> String {
    let mut cache = RegexCache::new(256);
    match prog.eval(&Lit::StringConst(input.to_string()), &mut cache) {
        Lit::StringConst(s) => s,
        other => panic!("expected a string result, got {:?}", other),
    }
}

/// Every synthesized program reproduces each of its training examples.
fn assert_round_trip(examples: &[(&str, &str)]) -> AST {
    let prog = run(examples).expect("synthesis failed");
    for (i, o) in examples {
        assert_eq!(eval_str(&prog, i), *o, "program: {}", prog.to_display_string());
    }
    prog
}

#[test]
fn round_trip_append() {
    let prog = assert_round_trip(&[("Hello", "Hello World"), ("Goodbye", "Goodbye World")]);
    assert_eq!(eval_str(&prog, "B"), "B World", "program: {}", prog.to_display_string());
}

#[test]
fn round_trip_constant() {
    assert_round_trip(&[("one 1", "{one: 1}"), ("three aaa", "{three: aaa}")]);
}

#[test]
fn generalize_numbers() {
    let prog = assert_round_trip(&[
        ("I have 17 cookies", "17"),
        ("Give me at least 3 cookies", "3"),
        ("This number is 489", "489"),
    ]);
    assert_eq!(
        eval_str(&prog, "A string with the number 54234564 in the middle"),
        "54234564",
        "program: {}",
        prog.to_display_string()
    );
}

#[test]
fn generalize_abbreviation() {
    let prog = assert_round_trip(&[
        ("First Last", "F.L."),
        ("Abc Defgh", "A.D."),
        ("Someone Name", "S.N."),
    ]);
    assert_eq!(
        eval_str(&prog, "Another Name"),
        "A.N.",
        "program: {}",
        prog.to_display_string()
    );
}

#[test]
fn generalize_delete_between() {
    let prog = assert_round_trip(&[
        ("short /no/ line", "short  line"),
        ("aa/aa/aa", "aaaa"),
    ]);
    assert_eq!(
        eval_str(&prog, "remove /this/"),
        "remove ",
        "program: {}",
        prog.to_display_string()
    );
}

#[test]
fn no_consistent_program_returns_none() {
    // the same input demands two different outputs: nothing can solve it
    assert!(run(&[("a", "first"), ("a", "second")]).is_none());
}

#[test]
fn no_examples_returns_none() {
    assert!(synthesize(&Vec::new()).is_none());
}

#[test]
fn finds_small_programs_early() {
    // a one-node program (the input itself) solves the identity examples,
    // so the driver must succeed well within the cap
    let prog = assert_round_trip(&[("abc", "abc"), ("xy", "xy")]);
    assert_eq!(eval_str(&prog, "anything"), "anything");
    // likewise a one-node constant program
    let konst = assert_round_trip(&[("a", "k"), ("bb", "k")]);
    assert_eq!(eval_str(&konst, "zzz"), "k");
}

#[test]
fn location_targets_use_the_end_sentinel() {
    // learning the length of the input: the end sentinel answers for a
    // location at the input's length
    let examples = vec![
        (
            Lit::StringConst("a".to_string()),
            Lit::LocConst(1),
        ),
        (
            Lit::StringConst("abcdefg".to_string()),
            Lit::LocConst(7),
        ),
    ];
    let prog = synthesizer::top_down(&examples).expect("synthesis failed");
    let mut cache = RegexCache::new(64);
    let out = prog.eval(&Lit::StringConst("abc".to_string()), &mut cache);
    let resolved = match out {
        Lit::LocEnd => 3,
        Lit::LocConst(n) => n,
        other => panic!("expected a location, got {:?}", other),
    };
    assert_eq!(resolved, 3);
}
