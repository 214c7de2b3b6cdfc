//! Forward evaluation of the DSL, with its mathematical semantics.
//!
//! The semantics is total wherever the search can reach it: slicing
//! fails soft to the empty string, location arithmetic saturates, and the
//! end-of-string sentinel resolves against the active input. Ill-sorted
//! argument combinations that the enumerator never builds evaluate to
//! nothing at all.

#![verifier::loop_isolation(false)]

use vstd::prelude::*;
use vstd::utf8::is_char_boundary;

use crate::cache::{compile_model, regex_matches, RegexCache};
use crate::lang::{ast_view, cap_usize, lemma_ast_view_app, AST, ASTV, Fun, Lit, LitV};
use crate::strutil::{
    boundary_at, byte_len, concat_str, lower_of, lowercase, substring_bytes, upper_of, uppercase,
};

verus! {

broadcast use vstd::std_specs::vec::group_vec_axioms, vstd::seq::group_seq_axioms;

/// The models of a vector of literal values.
pub open spec fn lits_view(v: Vec<Lit>) -> Seq<LitV> {
    v@.map_values(|l: Lit| l@)
}

/// The model of an optional literal result.
pub open spec fn opt_lit_view(r: Option<Lit>) -> Option<LitV> {
    match r {
        Some(v) => Some(v@),
        None => None,
    }
}

/// What `Find`/`FindEnd` return: the start (or end) of the selected
/// regex match, or the end sentinel when there is no such match. A
/// sentinel index asks for the match at position "length of the subject".
pub open spec fn find_sem(vals: Seq<LitV>, want_start: bool) -> Option<LitV> {
    if vals.len() == 3 && vals[0] is Str && vals[1] is Str && (vals[2] is Loc
        || vals[2] is End) {
        let outer = vals[0]->Str_0;
        let pat = vals[1]->Str_0;
        let i: nat = if vals[2] is Loc {
            vals[2]->Loc_0
        } else {
            outer.len()
        };
        let ms = regex_matches(compile_model(pat), outer);
        if i < ms.len() {
            Some(
                LitV::Loc(
                    if want_start {
                        ms[i as int].0 as nat
                    } else {
                        ms[i as int].1 as nat
                    },
                ),
            )
        } else {
            Some(LitV::End)
        }
    } else {
        None
    }
}

/// What `Slice` returns: the substring of the active input between the
/// two locations, the end sentinel meaning "to the end of the string";
/// anything out of range (or off a character boundary) gives the empty
/// string, so evaluation never aborts the search.
pub open spec fn slice_sem(vals: Seq<LitV>, inp: LitV) -> LitV {
    if vals.len() == 2 && inp is Str {
        let bs = inp->Str_0;
        if vals[0] is Loc && vals[1] is Loc {
            let st = vals[0]->Loc_0;
            let en = vals[1]->Loc_0;
            if st <= en <= bs.len() && is_char_boundary(bs, st as int) && is_char_boundary(
                bs,
                en as int,
            ) {
                LitV::Str(bs.subrange(st as int, en as int))
            } else {
                LitV::Str(Seq::empty())
            }
        } else if vals[0] is Loc && vals[1] is End {
            let st = vals[0]->Loc_0;
            if st <= bs.len() && is_char_boundary(bs, st as int) {
                LitV::Str(bs.subrange(st as int, bs.len() as int))
            } else {
                LitV::Str(Seq::empty())
            }
        } else {
            LitV::Str(Seq::empty())
        }
    } else {
        LitV::Str(Seq::empty())
    }
}

/// What `LocAdd` returns: saturating addition on locations; the end
/// sentinel propagates.
pub open spec fn locadd_sem(vals: Seq<LitV>) -> Option<LitV> {
    if vals.len() == 2 {
        if vals[0] is Loc && vals[1] is Loc {
            Some(LitV::Loc(cap_usize(vals[0]->Loc_0 + vals[1]->Loc_0)))
        } else if vals[0] is End || vals[1] is End {
            Some(LitV::End)
        } else {
            None
        }
    } else {
        None
    }
}

/// What `LocSub` returns: subtraction on locations saturating at 0; the
/// end sentinel propagates.
pub open spec fn locsub_sem(vals: Seq<LitV>) -> Option<LitV> {
    if vals.len() == 2 {
        if vals[0] is Loc && vals[1] is Loc {
            let a = vals[0]->Loc_0;
            let b = vals[1]->Loc_0;
            Some(LitV::Loc(if a >= b { (a - b) as nat } else { 0 }))
        } else if vals[0] is End || vals[1] is End {
            Some(LitV::End)
        } else {
            None
        }
    } else {
        None
    }
}

/// What `Equal` returns: structural equality, with a location compared
/// to the end sentinel resolving against the active input's length, and
/// anything else false.
pub open spec fn equal_sem(vals: Seq<LitV>, inp: LitV) -> LitV {
    if vals.len() == 2 {
        let a = vals[0];
        let b = vals[1];
        if a is Loc && b is Loc {
            LitV::Bool(a->Loc_0 == b->Loc_0)
        } else if (a is Loc && b is End) || (a is End && b is Loc) {
            if inp is Str {
                let n = if a is Loc {
                    a->Loc_0
                } else {
                    b->Loc_0
                };
                LitV::Bool(n == inp->Str_0.len())
            } else {
                LitV::Bool(false)
            }
        } else if a is Str && b is Str {
            LitV::Bool(a->Str_0 == b->Str_0)
        } else if (a is Input && b is Str) || (a is Str && b is Input) {
            if inp is Str {
                let s = if a is Str {
                    a->Str_0
                } else {
                    b->Str_0
                };
                LitV::Bool(s == inp->Str_0)
            } else {
                LitV::Bool(false)
            }
        } else {
            LitV::Bool(false)
        }
    } else {
        LitV::Bool(false)
    }
}

/// What applying an operator to already-evaluated arguments returns.
pub open spec fn eval_fun(f: Fun, vals: Seq<LitV>, inp: LitV) -> Option<LitV> {
    match f {
        Fun::Concat => {
            if vals.len() == 2 && vals[0] is Str && vals[1] is Str {
                Some(LitV::Str(vals[0]->Str_0 + vals[1]->Str_0))
            } else {
                None
            }
        },
        Fun::Find => find_sem(vals, true),
        Fun::FindEnd => find_sem(vals, false),
        Fun::Slice => Some(slice_sem(vals, inp)),
        Fun::LocAdd => locadd_sem(vals),
        Fun::LocSub => locsub_sem(vals),
        Fun::Equal => Some(equal_sem(vals, inp)),
        Fun::Lowercase => {
            if vals.len() == 1 && vals[0] is Str {
                Some(LitV::Str(lower_of(vals[0]->Str_0)))
            } else {
                None
            }
        },
        Fun::Uppercase => {
            if vals.len() == 1 && vals[0] is Str {
                Some(LitV::Str(upper_of(vals[0]->Str_0)))
            } else {
                None
            }
        },
    }
}

/// The values of the first `n` arguments, or nothing if any of them
/// evaluates to nothing.
pub open spec fn eval_args(args: Seq<ASTV>, n: int, inp: LitV) -> Option<Seq<LitV>>
    decreases args, n,
{
    if 0 < n <= args.len() {
        proof {
            broadcast use vstd::seq::axiom_seq_index_decreases;

            assert(decreases_to!(args => args[n - 1]));
        }
        match (eval_args(args, n - 1, inp), eval_ast(args[n - 1], inp)) {
            (Some(vs), Some(v)) => Some(vs.push(v)),
            _ => None,
        }
    } else {
        Some(Seq::empty())
    }
}

/// What a program evaluates to on the given input: the input placeholder
/// resolves to the input, other literals to themselves, and an
/// application to its operator applied to its arguments' values.
pub open spec fn eval_ast(a: ASTV, inp: LitV) -> Option<LitV>
    decreases a, 0int,
{
    match a {
        ASTV::Lit(LitV::Input) => Some(inp),
        ASTV::Lit(l) => Some(l),
        ASTV::App { fun, args } => match eval_args(args, args.len() as int, inp) {
            Some(vs) => eval_fun(fun, vs, inp),
            None => None,
        },
    }
}

pub proof fn lemma_eval_args(args: Seq<ASTV>, n: int, inp: LitV)
    requires
        0 <= n <= args.len(),
    ensures
        (eval_args(args, n, inp) is Some) <==> (forall|i: int|
            0 <= i < n ==> eval_ast(#[trigger] args[i], inp) is Some),
        eval_args(args, n, inp) matches Some(vs) ==> vs.len() == n && forall|i: int|
            0 <= i < n ==> Some(#[trigger] vs[i]) == eval_ast(args[i], inp),
    decreases n,
{
    if n > 0 {
        lemma_eval_args(args, n - 1, inp);
    }
}

/// Applies an operator to already-evaluated argument values.
fn apply_fun(fun: &Fun, vals: &Vec<Lit>, inp: &Lit, cache: &mut RegexCache) -> (r: Option<Lit>)
    requires
        old(cache).wf(),
    ensures
        final(cache).wf(),
        final(cache).cap() == old(cache).cap(),
        opt_lit_view(r) == eval_fun(*fun, lits_view(*vals), inp@),
{
    let ghost vv = lits_view(*vals);
    proof {
        assert(vv.len() == vals.len());
        assert(forall|i: int| 0 <= i < vals.len() ==> vv[i] == #[trigger] vals[i]@);
    }
    match fun {
        Fun::Concat => {
            if vals.len() == 2 {
                match (&vals[0], &vals[1]) {
                    (Lit::StringConst(a), Lit::StringConst(b)) => {
                        Some(Lit::StringConst(concat_str(a.as_str(), b.as_str())))
                    },
                    _ => None,
                }
            } else {
                None
            }
        },
        Fun::Find | Fun::FindEnd => {
            let want_start = matches!(fun, Fun::Find);
            if vals.len() == 3 {
                let idx: usize = match &vals[2] {
                    Lit::LocConst(i) => *i,
                    Lit::LocEnd => match &vals[0] {
                        Lit::StringConst(outer) => byte_len(outer.as_str()),
                        _ => 0,
                    },
                    _ => {
                        return None;
                    },
                };
                match (&vals[0], &vals[1]) {
                    (Lit::StringConst(outer), Lit::StringConst(pat)) => {
                        let m = cache.lookup(pat.as_str());
                        let ms = m.find_all(outer.as_str());
                        if idx < ms.len() {
                            if want_start {
                                Some(Lit::LocConst(ms[idx].0))
                            } else {
                                Some(Lit::LocConst(ms[idx].1))
                            }
                        } else {
                            Some(Lit::LocEnd)
                        }
                    },
                    _ => None,
                }
            } else {
                None
            }
        },
        Fun::Slice => {
            if vals.len() == 2 {
                match (&vals[0], &vals[1], inp) {
                    (Lit::LocConst(st), Lit::LocConst(en), Lit::StringConst(s)) => {
                        if *st <= *en && *en <= byte_len(s.as_str()) && boundary_at(
                            s.as_str(),
                            *st,
                        ) && boundary_at(s.as_str(), *en) {
                            Some(Lit::StringConst(substring_bytes(s.as_str(), *st, *en)))
                        } else {
                            Some(Lit::StringConst(String::new()))
                        }
                    },
                    (Lit::LocConst(st), Lit::LocEnd, Lit::StringConst(s)) => {
                        let n = byte_len(s.as_str());
                        if *st <= n && boundary_at(s.as_str(), *st) {
                            proof {
                                broadcast use vstd::utf8::encode_utf8_valid_utf8;

                                vstd::utf8::is_char_boundary_start_end_of_seq(
                                    vstd::utf8::encode_utf8(s@),
                                );
                            }
                            Some(Lit::StringConst(substring_bytes(s.as_str(), *st, n)))
                        } else {
                            Some(Lit::StringConst(String::new()))
                        }
                    },
                    _ => Some(Lit::StringConst(String::new())),
                }
            } else {
                Some(Lit::StringConst(String::new()))
            }
        },
        Fun::LocAdd => {
            if vals.len() == 2 {
                match (&vals[0], &vals[1]) {
                    (Lit::LocConst(a), Lit::LocConst(b)) => {
                        let c = if *a > usize::MAX - *b {
                            usize::MAX
                        } else {
                            *a + *b
                        };
                        Some(Lit::LocConst(c))
                    },
                    (Lit::LocEnd, _) | (_, Lit::LocEnd) => Some(Lit::LocEnd),
                    _ => None,
                }
            } else {
                None
            }
        },
        Fun::LocSub => {
            if vals.len() == 2 {
                match (&vals[0], &vals[1]) {
                    (Lit::LocConst(a), Lit::LocConst(b)) => {
                        let c = if *a >= *b {
                            *a - *b
                        } else {
                            0
                        };
                        Some(Lit::LocConst(c))
                    },
                    (Lit::LocEnd, _) | (_, Lit::LocEnd) => Some(Lit::LocEnd),
                    _ => None,
                }
            } else {
                None
            }
        },
        Fun::Equal => {
            if vals.len() == 2 {
                match (&vals[0], &vals[1]) {
                    (Lit::LocConst(a), Lit::LocConst(b)) => Some(Lit::BoolConst(*a == *b)),
                    (Lit::LocConst(a), Lit::LocEnd) | (Lit::LocEnd, Lit::LocConst(a)) => {
                        match inp {
                            Lit::StringConst(s) => Some(
                                Lit::BoolConst(*a == byte_len(s.as_str())),
                            ),
                            _ => Some(Lit::BoolConst(false)),
                        }
                    },
                    (Lit::StringConst(a), Lit::StringConst(b)) => {
                        let eq = *a == *b;
                        proof {
                            crate::lang::lemma_encode_utf8_injective(a@, b@);
                        }
                        Some(Lit::BoolConst(eq))
                    },
                    (Lit::Input, Lit::StringConst(b)) | (Lit::StringConst(b), Lit::Input) => {
                        match inp {
                            Lit::StringConst(s) => {
                                let eq = *b == *s;
                                proof {
                                    crate::lang::lemma_encode_utf8_injective(b@, s@);
                                }
                                Some(Lit::BoolConst(eq))
                            },
                            _ => Some(Lit::BoolConst(false)),
                        }
                    },
                    _ => Some(Lit::BoolConst(false)),
                }
            } else {
                Some(Lit::BoolConst(false))
            }
        },
        Fun::Lowercase => {
            if vals.len() == 1 {
                match &vals[0] {
                    Lit::StringConst(s) => Some(Lit::StringConst(lowercase(s.as_str()))),
                    _ => None,
                }
            } else {
                None
            }
        },
        Fun::Uppercase => {
            if vals.len() == 1 {
                match &vals[0] {
                    Lit::StringConst(s) => Some(Lit::StringConst(uppercase(s.as_str()))),
                    _ => None,
                }
            } else {
                None
            }
        },
    }
}

impl AST {
    /// The value of this program on `inp`, or nothing where the
    /// semantics gives none (an ill-sorted application).
    pub fn try_eval(&self, inp: &Lit, cache: &mut RegexCache) -> (r: Option<Lit>)
        requires
            old(cache).wf(),
        ensures
            final(cache).wf(),
            final(cache).cap() == old(cache).cap(),
            opt_lit_view(r) == eval_ast(self@, inp@),
        decreases self,
    {
        match self {
            AST::Lit(l) => {
                proof {
                    assert(*self == AST::Lit(*l));
                    assert(self@ == ASTV::Lit(l@));
                }
                if l.is_input() {
                    Some(inp.dup())
                } else {
                    Some(l.dup())
                }
            },
            AST::App { fun, args } => {
                proof {
                    lemma_ast_view_app(*fun, *args);
                }
                let ghost av = ast_view(*self)->App_args;
                let mut vals: Vec<Lit> = Vec::new();
                let mut i: usize = 0;
                while i < args.len()
                    invariant
                        cache.wf(),
                        cache.cap() == old(cache).cap(),
                        i <= args.len(),
                        vals.len() == i,
                        forall|j: int|
                            0 <= j < i ==> Some(vals[j]@) == #[trigger] eval_ast(av[j], inp@),
                    decreases args.len() - i,
                {
                    proof {
                        broadcast use vstd::std_specs::vec::axiom_vec_index_decreases;

                        assert(*self == AST::App { fun: *fun, args: *args });
                        assert(decreases_to!(*args => args[i as int]));
                    }
                    let r0 = args[i].try_eval(inp, cache);
                    match r0 {
                        Some(v) => {
                            vals.push(v);
                        },
                        None => {
                            proof {
                                lemma_eval_args(av, av.len() as int, inp@);
                                assert(eval_ast(av[i as int], inp@) is None);
                                assert(eval_args(av, av.len() as int, inp@) is None);
                            }
                            return None;
                        },
                    }
                    i = i + 1;
                }
                proof {
                    lemma_eval_args(av, av.len() as int, inp@);
                    assert(forall|j: int|
                        0 <= j < av.len() ==> eval_ast(#[trigger] av[j], inp@) is Some);
                    assert(eval_args(av, av.len() as int, inp@) is Some);
                    let vs = eval_args(av, av.len() as int, inp@)->Some_0;
                    assert(vs.len() == vals.len());
                    assert(forall|j: int|
                        0 <= j < vals.len() ==> lits_view(vals)[j] == #[trigger] vals[j]@);
                    assert(vs =~= lits_view(vals));
                }
                apply_fun(fun, &vals, inp, cache)
            },
        }
    }

    /// The value of this program on `inp`. The program must evaluate to
    /// something: the enumerator and the learner only ever build such
    /// programs.
    pub fn eval(&self, inp: &Lit, cache: &mut RegexCache) -> (r: Lit)
        requires
            old(cache).wf(),
            eval_ast(self@, inp@) is Some,
        ensures
            final(cache).wf(),
            final(cache).cap() == old(cache).cap(),
            Some(r@) == eval_ast(self@, inp@),
    {
        match self.try_eval(inp, cache) {
            Some(v) => v,
            None => vstd::pervasive::unreached(),
        }
    }
}


/// Evaluation of a binary application, spelled out: both arguments are
/// evaluated and the operator applied to the pair.
pub proof fn lemma_eval_app2(f: Fun, a1: ASTV, a2: ASTV, inp: LitV)
    ensures
        eval_ast(ASTV::App { fun: f, args: seq![a1, a2] }, inp) == (match (
            eval_ast(a1, inp),
            eval_ast(a2, inp),
        ) {
            (Some(v1), Some(v2)) => eval_fun(f, seq![v1, v2], inp),
            _ => None,
        }),
{
    let args = seq![a1, a2];
    assert(eval_args(args, 0, inp) == Some(Seq::<LitV>::empty()));
    assert(eval_args(args, 1, inp) == (match (eval_args(args, 0, inp), eval_ast(args[0], inp)) {
        (Some(vs), Some(v)) => Some(vs.push(v)),
        _ => None,
    }));
    assert(eval_args(args, 2, inp) == (match (eval_args(args, 1, inp), eval_ast(args[1], inp)) {
        (Some(vs), Some(v)) => Some(vs.push(v)),
        _ => None,
    }));
    match (eval_ast(a1, inp), eval_ast(a2, inp)) {
        (Some(v1), Some(v2)) => {
            assert(Seq::<LitV>::empty().push(v1).push(v2) =~= seq![v1, v2]);
        },
        _ => {},
    }
}

} // verus!
