//! Tests of the DSL's forward evaluation: concatenation, slicing with
//! its fail-soft policy, location arithmetic, equality, case transforms,
//! and regex matching with the permissive fallback for bad patterns.

use synthesizer::{Fun, Lit, RegexCache, AST};

fn s(x: &str) -> Lit {
    Lit::StringConst(x.to_string())
}

fn app(fun: Fun, args: Vec<AST>) -> AST {
    AST::App { fun, args }
}

fn lit(l: Lit) -> AST {
    AST::Lit(l)
}

fn eval(prog: &AST, input: &str) -> Lit {
    let mut cache = RegexCache::new(64);
    prog.eval(&s(input), &mut cache)
}

#[test]
fn eval_concat() {
    let prog = app(Fun::Concat, vec![lit(s("Hello ")), lit(s("World"))]);
    assert_eq!(eval(&prog, ""), s("Hello World"));
}

#[test]
fn eval_input_substitution() {
    let prog = app(Fun::Concat, vec![lit(Lit::Input), lit(s("!"))]);
    assert_eq!(eval(&prog, "hi"), s("hi!"));
}

#[test]
fn eval_slice() {
    let prog = app(Fun::Slice, vec![lit(Lit::LocConst(2)), lit(Lit::LocConst(5))]);
    assert_eq!(eval(&prog, "abcdefg"), s("cde"));
}

#[test]
fn eval_slice_to_end() {
    let prog = app(Fun::Slice, vec![lit(Lit::LocConst(3)), lit(Lit::LocEnd)]);
    assert_eq!(eval(&prog, "abcdefg"), s("defg"));
}

#[test]
fn eval_slice_fail_soft() {
    // out of range and inverted bounds both give the empty string
    let over = app(Fun::Slice, vec![lit(Lit::LocConst(2)), lit(Lit::LocConst(99))]);
    assert_eq!(eval(&over, "abc"), s(""));
    let inverted = app(Fun::Slice, vec![lit(Lit::LocConst(2)), lit(Lit::LocConst(1))]);
    assert_eq!(eval(&inverted, "abc"), s(""));
}

#[test]
fn eval_loc_arithmetic() {
    let add = app(Fun::LocAdd, vec![lit(Lit::LocConst(3)), lit(Lit::LocConst(4))]);
    assert_eq!(eval(&add, ""), Lit::LocConst(7));
    let sub_saturates = app(Fun::LocSub, vec![lit(Lit::LocConst(2)), lit(Lit::LocConst(5))]);
    assert_eq!(eval(&sub_saturates, ""), Lit::LocConst(0));
    let end_propagates = app(Fun::LocAdd, vec![lit(Lit::LocEnd), lit(Lit::LocConst(1))]);
    assert_eq!(eval(&end_propagates, ""), Lit::LocEnd);
}

#[test]
fn eval_equal() {
    let eq = app(Fun::Equal, vec![lit(s("x")), lit(s("x"))]);
    assert_eq!(eval(&eq, ""), Lit::BoolConst(true));
    // a location compared to the sentinel resolves against the input
    let len_eq = app(Fun::Equal, vec![lit(Lit::LocConst(3)), lit(Lit::LocEnd)]);
    assert_eq!(eval(&len_eq, "abc"), Lit::BoolConst(true));
    assert_eq!(eval(&len_eq, "abcd"), Lit::BoolConst(false));
}

#[test]
fn eval_case_transforms() {
    let lower = app(Fun::Lowercase, vec![lit(s("AbC"))]);
    assert_eq!(eval(&lower, ""), s("abc"));
    let upper = app(Fun::Uppercase, vec![lit(s("AbC"))]);
    assert_eq!(eval(&upper, ""), s("ABC"));
}

#[test]
fn eval_find() {
    // the first digit of the input starts at byte 7
    let prog = app(
        Fun::Find,
        vec![lit(Lit::Input), lit(s("\\d")), lit(Lit::LocConst(0))],
    );
    assert_eq!(eval(&prog, "I have 17 cookies"), Lit::LocConst(7));
    // the second digit match ends at byte 9
    let prog_end = app(
        Fun::FindEnd,
        vec![lit(Lit::Input), lit(s("\\d")), lit(Lit::LocConst(1))],
    );
    assert_eq!(eval(&prog_end, "I have 17 cookies"), Lit::LocConst(9));
    // no such match gives the sentinel
    let missing = app(
        Fun::Find,
        vec![lit(Lit::Input), lit(s("\\d")), lit(Lit::LocConst(9))],
    );
    assert_eq!(eval(&missing, "I have 17 cookies"), Lit::LocEnd);
}

#[test]
fn eval_find_bad_pattern_degrades() {
    // an unparseable pattern degrades to the match-any-character matcher,
    // so the first match starts at 0 rather than aborting the run
    let prog = app(
        Fun::Find,
        vec![lit(Lit::Input), lit(s("(")), lit(Lit::LocConst(0))],
    );
    assert_eq!(eval(&prog, "abc"), Lit::LocConst(0));
}

#[test]
fn ast_size_and_cost() {
    let prog = app(Fun::Concat, vec![lit(Lit::Input), lit(s("!"))]);
    assert_eq!(prog.size(), 3);
    // concat costs 2, plus the sizes (1 and 1) of its arguments
    assert_eq!(prog.cost(), 4);
    assert_eq!(lit(Lit::Input).cost(), 0);
    assert_eq!(lit(Lit::LocEnd).cost(), 0);
    assert_eq!(lit(s("x")).cost(), 1);
}

#[test]
fn display_strings() {
    let prog = app(
        Fun::Slice,
        vec![lit(Lit::LocConst(3)), lit(Lit::LocConst(7))],
    );
    assert_eq!(prog.to_display_string(), "(X[3..7])");
    let cat = app(Fun::Concat, vec![lit(s("a")), lit(s("b"))]);
    assert_eq!(cat.to_display_string(), "('a' <> 'b')");
    let hidden = app(Fun::Concat, vec![lit(s("")), lit(Lit::Input)]);
    assert_eq!(hidden.to_display_string(), "X");
    let find = app(
        Fun::Find,
        vec![lit(Lit::Input), lit(s("\\d")), lit(Lit::LocEnd)],
    );
    assert_eq!(find.to_display_string(), "X.find('\\d', $)");
}
