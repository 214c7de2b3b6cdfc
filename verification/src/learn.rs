//! The witness-based top-down learner: inverse-semantics recursion on the
//! shape of the target, contributing every applicable rule's result into
//! one unified version space.
//!
//! The rules are not mutually exclusive short-circuits: a constant
//! program is always offered for a string target; a location equal to
//! the input's length offers the end sentinel; a target containing the
//! whole input offers concatenations around the input; a target contained
//! in the input offers slices; and a target related to the input neither
//! way is split at every point. The memo cache for the active example is
//! consulted first and contributed into the union, never used to prune.
//!
//! Everything learned is consistent: when every cached witness space
//! holds only programs producing its key on the example's input, every
//! program of the learned space produces the target.

#![verifier::loop_isolation(false)]

use std::rc::Rc;

use vstd::prelude::*;
use vstd::utf8::encode_utf8;

use crate::eval::{eval_ast, eval_fun, lemma_eval_app2};
use crate::lang::{AST, ASTV, Fun, Lit, LitV};
use crate::outmap::{answers_goal, cache_consistent, cache_vsas_wf, space_consistent, VsaCache};
use crate::strutil::{
    boundary_at, byte_len, find_occurrences, lemma_occurrences_bounds,
    lemma_occurrences_content, occurrences, substring_bytes,
};
use crate::vsa::{join_args_contained, rc_dup, rc_v, vsa_contains, wf_members, wf_vsa, VSA};

verus! {

broadcast use vstd::std_specs::vec::group_vec_axioms, vstd::seq::group_seq_axioms;

/// The termination measure of a learning goal: string targets strictly
/// shrink, and every other target is a base case.
pub open spec fn learn_measure(l: LitV) -> nat {
    match l {
        LitV::Str(bs) => 2 * bs.len() + 1,
        _ => 0,
    }
}

/// A union of two consistent spaces is consistent.
proof fn lemma_unify_consistent(u: VSA, a: VSA, b: VSA, inp: LitV, out: LitV)
    requires
        forall|p: ASTV|
            #[trigger] vsa_contains(u, p) ==> vsa_contains(a, p) || vsa_contains(b, p),
        space_consistent(a, inp, out),
        space_consistent(b, inp, out),
    ensures
        space_consistent(u, inp, out),
{
}

/// The bytes a string-or-input goal asks for.
pub open spec fn goal_bytes(goal: LitV, inp: LitV) -> Seq<u8> {
    if goal is Input {
        inp->Str_0
    } else {
        goal->Str_0
    }
}

/// A concat join over spaces consistent for two string-or-input goals is
/// consistent for the concatenation of the goals' values.
proof fn lemma_concat_join_consistent(
    j: VSA,
    cs: Vec<Rc<VSA>>,
    inp: LitV,
    goal0: LitV,
    goal1: LitV,
    both: LitV,
)
    requires
        j == (VSA::Join { op: Fun::Concat, children: cs }),
        cs.len() == 2,
        space_consistent(*cs[0], inp, goal0),
        space_consistent(*cs[1], inp, goal1),
        goal0 is Str || (goal0 is Input && inp is Str),
        goal1 is Str || (goal1 is Input && inp is Str),
        both == LitV::Str(goal_bytes(goal0, inp) + goal_bytes(goal1, inp)),
    ensures
        space_consistent(j, inp, both),
{
    assert forall|p: ASTV| #[trigger]
        vsa_contains(j, p) implies (eval_ast(p, inp) matches Some(v) && answers_goal(
        v,
        both,
        inp,
    )) by {
        let args = p->App_args;
        assert(join_args_contained(cs, args));
        assert(vsa_contains(*cs[0], args[0]));
        assert(vsa_contains(*cs[1], args[1]));
        let v0 = eval_ast(args[0], inp)->Some_0;
        let v1 = eval_ast(args[1], inp)->Some_0;
        assert(v0 == LitV::Str(goal_bytes(goal0, inp)));
        assert(v1 == LitV::Str(goal_bytes(goal1, inp)));
        assert(args =~= seq![args[0], args[1]]);
        lemma_eval_app2(Fun::Concat, args[0], args[1], inp);
        assert(eval_fun(Fun::Concat, seq![v0, v1], inp) == Some(
            LitV::Str(goal_bytes(goal0, inp) + goal_bytes(goal1, inp)),
        ));
    }
}

/// A slice join over spaces consistent for the two bounds of a real
/// character-boundary match is consistent for the matched substring.
proof fn lemma_slice_join_consistent(
    j: VSA,
    cs: Vec<Rc<VSA>>,
    inp: LitV,
    st: usize,
    en: usize,
    target: LitV,
)
    requires
        j == (VSA::Join { op: Fun::Slice, children: cs }),
        cs.len() == 2,
        space_consistent(*cs[0], inp, LitV::Loc(st as nat)),
        space_consistent(*cs[1], inp, LitV::Loc(en as nat)),
        inp matches LitV::Str(ib) && st <= en <= ib.len() && vstd::utf8::is_char_boundary(
            ib,
            st as int,
        ) && vstd::utf8::is_char_boundary(ib, en as int) && target == LitV::Str(
            ib.subrange(st as int, en as int),
        ),
    ensures
        space_consistent(j, inp, target),
{
    let ib = inp->Str_0;
    assert forall|p: ASTV| #[trigger]
        vsa_contains(j, p) implies (eval_ast(p, inp) matches Some(v) && answers_goal(
        v,
        target,
        inp,
    )) by {
        let args = p->App_args;
        assert(join_args_contained(cs, args));
        assert(vsa_contains(*cs[0], args[0]));
        assert(vsa_contains(*cs[1], args[1]));
        let v0 = eval_ast(args[0], inp)->Some_0;
        let v1 = eval_ast(args[1], inp)->Some_0;
        assert(args =~= seq![args[0], args[1]]);
        lemma_eval_app2(Fun::Slice, args[0], args[1], inp);
        let vals = seq![v0, v1];
        assert(answers_goal(v0, LitV::Loc(st as nat), inp));
        assert(answers_goal(v1, LitV::Loc(en as nat), inp));
        if v0 is Loc && v1 is Loc {
            assert(eval_fun(Fun::Slice, vals, inp) == Some(
                LitV::Str(ib.subrange(st as int, en as int)),
            ));
        } else if v0 is Loc && v1 is End {
            assert(en == ib.len());
            assert(eval_fun(Fun::Slice, vals, inp) == Some(
                LitV::Str(ib.subrange(st as int, ib.len() as int)),
            ));
        } else {
            // the start is the end sentinel, so the match is empty
            assert(v0 is End);
            assert(st == ib.len());
            assert(en == ib.len());
            assert(ib.subrange(st as int, en as int) =~= Seq::<u8>::empty());
            assert(eval_fun(Fun::Slice, vals, inp) == Some(LitV::Str(Seq::<u8>::empty())));
        }
    }
}

/// Learns a version space of programs for the goal "produce `out` from
/// `inp`", drawing bank-sourced witnesses from `cache` (keyed by the
/// one-element output vector of the active example).
pub fn learn(inp: &Lit, out: &Lit, cache: &VsaCache) -> (r: Rc<VSA>)
    requires
        cache.wf(),
        cache_vsas_wf(cache),
    ensures
        wf_vsa(*r),
        out@ is Str ==> vsa_contains(*r, ASTV::Lit(out@)),
        (out@ matches LitV::Loc(n) && inp@ matches LitV::Str(bs) && n == bs.len())
            ==> vsa_contains(*r, ASTV::Lit(LitV::End)),
        cache.spec_get(seq![out@]) matches Some(sv) ==> forall|p: ASTV|
            #[trigger] vsa_contains(sv, p) ==> vsa_contains(*r, p),
        (out@ matches LitV::Loc(n) && inp@ matches LitV::Str(bs) && n != bs.len()
            && !cache.has_key(seq![out@])) ==> forall|p: ASTV| !vsa_contains(*r, p),
        cache_consistent(cache, inp@) ==> space_consistent(*r, inp@, out@),
    decreases learn_measure(out@),
{
    let ghost gi = inp@;
    let ghost go = out@;
    let ghost msp = cache.spec_get(seq![go]);
    let mut acc: Rc<VSA> = Rc::new(VSA::empty());

    // contribute the memoized space for this target, if one is cached
    let mut key: Vec<Lit> = Vec::new();
    key.push(out.dup());
    proof {
        assert(crate::eval::lits_view(key) =~= seq![go]);
    }
    match cache.get(&key) {
        Some(v) => {
            proof {
                cache.lemma_lens();
                let kv = crate::eval::lits_view(key);
                assert(cache.has_key(kv));
                let w = cache.idx_of(kv);
                assert(0 <= w < cache.keys_view().len());
                assert(wf_vsa(cache.vals_view()[w]));
                if cache_consistent(cache, gi) {
                    assert(cache.keys_view()[w][0] == go);
                    assert(space_consistent(cache.vals_view()[w], gi, go));
                }
            }
            let ghost pre = rc_v(&acc);
            let contributed = rc_dup(v);
            let ghost cg = rc_v(&contributed);
            acc = Rc::new(VSA::unify(acc, contributed));
            proof {
                if cache_consistent(cache, gi) {
                    lemma_unify_consistent(rc_v(&acc), pre, cg, gi, go);
                }
                assert(msp == Some(cg));
                assert forall|p: ASTV| #[trigger]
                    vsa_contains(msp->Some_0, p) implies vsa_contains(rc_v(&acc), p) by {}
            }
        },
        None => {
            proof {
                assert(msp is None);
            }
        },
    }

    // a constant program reproduces any fixed string target
    if matches!(out, Lit::StringConst(_)) {
        let lit = VSA::singleton(AST::Lit(out.dup()));
        let ghost litg = lit;
        let ghost pre = rc_v(&acc);
        acc = Rc::new(VSA::unify(acc, Rc::new(lit)));
        proof {
            assert(vsa_contains(*acc, ASTV::Lit(go)));
            if cache_consistent(cache, gi) {
                assert(space_consistent(litg, gi, go)) by {
                    assert forall|p: ASTV| #[trigger]
                        vsa_contains(litg, p) implies (eval_ast(p, gi) matches Some(v)
                        && answers_goal(v, go, gi)) by {
                        assert(p == ASTV::Lit(go));
                        assert(eval_ast(p, gi) == Some(go));
                    }
                }
                lemma_unify_consistent(rc_v(&acc), pre, litg, gi, go);
            }
        }
    }

    // a location at the input's end is the end-of-string sentinel
    match (out, inp) {
        (Lit::LocConst(n), Lit::StringConst(inp_str)) => {
            if byte_len(inp_str.as_str()) == *n {
                let lit = VSA::singleton(AST::Lit(Lit::LocEnd));
                let ghost litg = lit;
                let ghost pre = rc_v(&acc);
                acc = Rc::new(VSA::unify(acc, Rc::new(lit)));
                proof {
                    assert(vsa_contains(*acc, ASTV::Lit(LitV::End)));
                    if cache_consistent(cache, gi) {
                        assert(space_consistent(litg, gi, go)) by {
                            assert forall|p: ASTV| #[trigger]
                                vsa_contains(litg, p) implies (eval_ast(p, gi) matches Some(
                                    v,
                                ) && answers_goal(v, go, gi)) by {
                                assert(p == ASTV::Lit(LitV::End));
                                assert(eval_ast(p, gi) == Some(LitV::End));
                            }
                        }
                        lemma_unify_consistent(rc_v(&acc), pre, litg, gi, go);
                    }
                }
            }
        },
        _ => {},
    }

    match (out, inp) {
        (Lit::StringConst(s), Lit::StringConst(inp_str)) => {
            let ghost sb = encode_utf8(s@);
            let ghost ib = encode_utf8(inp_str@);
            let slen = byte_len(s.as_str());
            let ilen = byte_len(inp_str.as_str());
            let mut s_contains_inp = ilen == 0;

            // insertion: the target contains the whole input; wrap the
            // input in learned prefix and suffix concatenations
            if ilen > 0 {
                let ms = find_occurrences(s.as_str(), inp_str.as_str());
                s_contains_inp = ms.len() > 0;
                proof {
                    broadcast use vstd::utf8::encode_utf8_valid_utf8;

                    lemma_occurrences_bounds(sb, ib, 0);
                    lemma_occurrences_content(sb, ib, 0);
                    vstd::utf8::is_char_boundary_start_end_of_seq(sb);
                }
                let mut k: usize = 0;
                while k < ms.len()
                    invariant
                        k <= ms.len(),
                        wf_vsa(*acc),
                        vsa_contains(*acc, ASTV::Lit(go)),
                        msp matches Some(sv) ==> forall|p: ASTV|
                            #[trigger] vsa_contains(sv, p) ==> vsa_contains(*acc, p),
                        cache_consistent(cache, gi) ==> space_consistent(*acc, gi, go),
                    decreases ms.len() - k,
                {
                    let m = ms[k];
                    let st = m.0;
                    let en = m.1;
                    proof {
                        assert(ms@[k as int] == occurrences(sb, ib)[k as int]);
                        assert(en == st + ib.len());
                        assert(st + ib.len() <= sb.len());
                        assert(sb.subrange(st as int, st + ib.len()) == ib);
                    }
                    if boundary_at(s.as_str(), st) && boundary_at(s.as_str(), en) {
                        let pre_str = substring_bytes(s.as_str(), 0, st);
                        let suf_str = substring_bytes(s.as_str(), en, slen);
                        let ghost pre_b = encode_utf8(pre_str@);
                        let ghost suf_b = encode_utf8(suf_str@);
                        proof {
                            assert(pre_b.len() == st);
                            assert(suf_b.len() == sb.len() - en);
                            assert(learn_measure(Lit::StringConst(pre_str)@) < learn_measure(
                                go,
                            ));
                            assert(learn_measure(Lit::StringConst(suf_str)@) < learn_measure(
                                go,
                            ));
                        }
                        let pv = learn(inp, &Lit::StringConst(pre_str), cache);
                        let input_lit = Lit::Input;
                        let xv = learn(inp, &input_lit, cache);
                        let sv = learn(inp, &Lit::StringConst(suf_str), cache);
                        let ghost xg = rc_v(&xv);
                        let ghost sg = rc_v(&sv);
                        let ghost pg = rc_v(&pv);
                        let mut inner_cs: Vec<Rc<VSA>> = Vec::new();
                        inner_cs.push(xv);
                        inner_cs.push(sv);
                        let ghost icsg = inner_cs;
                        proof {
                            assert(wf_members(inner_cs));
                        }
                        let inner = Rc::new(VSA::Join { op: Fun::Concat, children: inner_cs });
                        let ghost innerg = rc_v(&inner);
                        let mut outer_cs: Vec<Rc<VSA>> = Vec::new();
                        outer_cs.push(pv);
                        outer_cs.push(inner);
                        let ghost ocsg = outer_cs;
                        proof {
                            assert(wf_members(outer_cs));
                        }
                        let join = VSA::Join { op: Fun::Concat, children: outer_cs };
                        let ghost joing = join;
                        proof {
                            if cache_consistent(cache, gi) {
                                assert(space_consistent(xg, gi, LitV::Input));
                                assert(space_consistent(sg, gi, LitV::Str(suf_b)));
                                assert(space_consistent(pg, gi, LitV::Str(pre_b)));
                                lemma_concat_join_consistent(
                                    innerg,
                                    icsg,
                                    gi,
                                    LitV::Input,
                                    LitV::Str(suf_b),
                                    LitV::Str(ib + suf_b),
                                );
                                lemma_concat_join_consistent(
                                    joing,
                                    ocsg,
                                    gi,
                                    LitV::Str(pre_b),
                                    LitV::Str(ib + suf_b),
                                    LitV::Str(pre_b + (ib + suf_b)),
                                );
                                assert(pre_b + (ib + suf_b) =~= sb);
                                assert(space_consistent(joing, gi, go));
                            }
                        }
                        let ghost pre_acc = rc_v(&acc);
                        acc = Rc::new(VSA::unify(acc, Rc::new(join)));
                        proof {
                            if cache_consistent(cache, gi) {
                                lemma_unify_consistent(rc_v(&acc), pre_acc, joing, gi, go);
                            }
                        }
                    }
                    k = k + 1;
                }
            }

            // extraction: the input contains the target; slice the input
            // between learned locations (offsets off a character
            // boundary are skipped: slicing there could not reproduce
            // the target)
            let ms2 = find_occurrences(inp_str.as_str(), s.as_str());
            let inp_contains_s = ms2.len() > 0;
            proof {
                lemma_occurrences_bounds(ib, sb, 0);
                lemma_occurrences_content(ib, sb, 0);
            }
            let mut k: usize = 0;
            while k < ms2.len()
                invariant
                    k <= ms2.len(),
                    wf_vsa(*acc),
                    vsa_contains(*acc, ASTV::Lit(go)),
                    msp matches Some(sv) ==> forall|p: ASTV|
                        #[trigger] vsa_contains(sv, p) ==> vsa_contains(*acc, p),
                    cache_consistent(cache, gi) ==> space_consistent(*acc, gi, go),
                decreases ms2.len() - k,
            {
                let m = ms2[k];
                let st = m.0;
                let en = m.1;
                proof {
                    assert(ms2@[k as int] == occurrences(ib, sb)[k as int]);
                    assert(en == st + sb.len());
                    assert(st + sb.len() <= ib.len());
                    assert(ib.subrange(st as int, st + sb.len()) == sb);
                    assert(learn_measure(Lit::LocConst(st)@) < learn_measure(go));
                    assert(learn_measure(Lit::LocConst(en)@) < learn_measure(go));
                }
                if boundary_at(inp_str.as_str(), st) && boundary_at(inp_str.as_str(), en) {
                    let stv = learn(inp, &Lit::LocConst(st), cache);
                    let env = learn(inp, &Lit::LocConst(en), cache);
                    let ghost stg = rc_v(&stv);
                    let ghost eng = rc_v(&env);
                    let mut cs: Vec<Rc<VSA>> = Vec::new();
                    cs.push(stv);
                    cs.push(env);
                    let ghost csg = cs;
                    proof {
                        assert(wf_members(cs));
                    }
                    let join = VSA::Join { op: Fun::Slice, children: cs };
                    let ghost joing = join;
                    proof {
                        if cache_consistent(cache, gi) {
                            assert(space_consistent(stg, gi, LitV::Loc(st as nat)));
                            assert(space_consistent(eng, gi, LitV::Loc(en as nat)));
                            lemma_slice_join_consistent(joing, csg, gi, st, en, go);
                        }
                    }
                    let ghost pre_acc = rc_v(&acc);
                    acc = Rc::new(VSA::unify(acc, Rc::new(join)));
                    proof {
                        if cache_consistent(cache, gi) {
                            lemma_unify_consistent(rc_v(&acc), pre_acc, joing, gi, go);
                        }
                    }
                }
                k = k + 1;
            }

            // fallback: no containment either way; split the target at
            // every point and learn both halves
            if !s_contains_inp && !inp_contains_s {
                proof {
                    broadcast use vstd::utf8::encode_utf8_valid_utf8;

                    vstd::utf8::is_char_boundary_start_end_of_seq(sb);
                }
                let mut k: usize = 1;
                while k < slen
                    invariant
                        1 <= k <= slen || slen == 0,
                        slen == sb.len(),
                        wf_vsa(*acc),
                        vsa_contains(*acc, ASTV::Lit(go)),
                        msp matches Some(sv) ==> forall|p: ASTV|
                            #[trigger] vsa_contains(sv, p) ==> vsa_contains(*acc, p),
                        cache_consistent(cache, gi) ==> space_consistent(*acc, gi, go),
                    decreases slen - k,
                {
                    if boundary_at(s.as_str(), k) {
                        let pre_str = substring_bytes(s.as_str(), 0, k);
                        let suf_str = substring_bytes(s.as_str(), k, slen);
                        let ghost pre_b = encode_utf8(pre_str@);
                        let ghost suf_b = encode_utf8(suf_str@);
                        proof {
                            assert(pre_b.len() == k);
                            assert(suf_b.len() == sb.len() - k);
                            assert(learn_measure(Lit::StringConst(pre_str)@) < learn_measure(
                                go,
                            ));
                            assert(learn_measure(Lit::StringConst(suf_str)@) < learn_measure(
                                go,
                            ));
                        }
                        let pv = learn(inp, &Lit::StringConst(pre_str), cache);
                        let sv = learn(inp, &Lit::StringConst(suf_str), cache);
                        let ghost pg = rc_v(&pv);
                        let ghost sg = rc_v(&sv);
                        let mut cs: Vec<Rc<VSA>> = Vec::new();
                        cs.push(pv);
                        cs.push(sv);
                        let ghost csg = cs;
                        proof {
                            assert(wf_members(cs));
                        }
                        let join = VSA::Join { op: Fun::Concat, children: cs };
                        let ghost joing = join;
                        proof {
                            if cache_consistent(cache, gi) {
                                assert(space_consistent(pg, gi, LitV::Str(pre_b)));
                                assert(space_consistent(sg, gi, LitV::Str(suf_b)));
                                lemma_concat_join_consistent(
                                    joing,
                                    csg,
                                    gi,
                                    LitV::Str(pre_b),
                                    LitV::Str(suf_b),
                                    LitV::Str(pre_b + suf_b),
                                );
                                assert(pre_b + suf_b =~= sb);
                                assert(space_consistent(joing, gi, go));
                            }
                        }
                        let ghost pre_acc = rc_v(&acc);
                        acc = Rc::new(VSA::unify(acc, Rc::new(join)));
                        proof {
                            if cache_consistent(cache, gi) {
                                lemma_unify_consistent(rc_v(&acc), pre_acc, joing, gi, go);
                            }
                        }
                    }
                    k = k + 1;
                }
            }
        },
        _ => {},
    }

    acc
}

} // verus!
