//! The synthesis driver: seeds the bank, grows it size by size, learns a
//! per-example version space, intersects the spaces, and ranks the
//! survivors; a picked program is returned only after it has been checked
//! against every training example, so a successful result is always a
//! working program.

#![verifier::loop_isolation(false)]

use std::rc::Rc;

use vstd::prelude::*;
use vstd::utf8::encode_utf8;

use crate::bank::Bank;
use crate::cache::RegexCache;
use crate::eval::{eval_ast, lits_view};
use crate::lang::{args_view, ast_view, size_v, AST, ASTV, Fun, Lit, LitV};
use crate::learn::learn;
use crate::outmap::{answers_goal, cache_consistent, cache_vsas_wf, space_consistent, VsaCache};
use crate::vsa::{rc_dup, rc_v, vsa_contains, wf_vsa, VSA};

verus! {

broadcast use vstd::std_specs::vec::group_vec_axioms, vstd::seq::group_seq_axioms;

/// The size bound of the search: the driver gives up once the bank holds
/// every candidate of this size and no consistent program has appeared.
pub const SIZE_CAP: usize = 9;

/// The capacity of the compiled-pattern cache.
pub const REGEX_CACHE_CAP: usize = 2000;

/// Whether an evaluated result answers the expected output: equal
/// outright, or the end sentinel answering for the input's length.
pub open spec fn lit_answers(v: LitV, out: LitV, inp: LitV) -> bool {
    v == out || (v is End && (out matches LitV::Loc(n) && (inp matches LitV::Str(bs) && n
        == bs.len())))
}

/// Whether every example demands one and the same string output: the
/// one situation in which a constant program trivially solves everything.
pub open spec fn shared_string_output(examples: Seq<(Lit, Lit)>) -> bool {
    examples.len() >= 1 && examples[0].1@ is Str && forall|j: int|
        0 <= j < examples.len() ==> (#[trigger] examples[j]).1@ == examples[0].1@
}

/// Whether a program reproduces every example.
pub open spec fn solves(p: ASTV, examples: Seq<(Lit, Lit)>) -> bool {
    forall|j: int|
        0 <= j < examples.len() ==> (eval_ast(p, (#[trigger] examples[j]).0@) matches Some(v)
            && lit_answers(v, examples[j].1@, examples[j].0@))
}

/// Checks a candidate against every training example.
fn check_examples(prog: &AST, examples: &[(Lit, Lit)], rcache: &mut RegexCache) -> (r: bool)
    requires
        old(rcache).wf(),
    ensures
        final(rcache).wf(),
        r == solves(prog@, examples@),
{
    let mut j: usize = 0;
    while j < examples.len()
        invariant
            rcache.wf(),
            j <= examples@.len(),
            forall|jj: int|
                0 <= jj < j ==> (eval_ast(prog@, (#[trigger] examples@[jj]).0@) matches Some(
                    v,
                ) && lit_answers(v, examples@[jj].1@, examples@[jj].0@)),
        decreases examples@.len() - j,
    {
        let (inp, out) = &examples[j];
        let evaled = prog.try_eval(inp, rcache);
        match evaled {
            Some(v) => {
                let ok = crate::lang::lit_eq(&v, out) || (matches!(v, Lit::LocEnd) && match (
                    out,
                    inp,
                ) {
                    (Lit::LocConst(n), Lit::StringConst(s)) => *n == crate::strutil::byte_len(
                        s.as_str(),
                    ),
                    _ => false,
                });
                if !ok {
                    proof {
                        assert(!lit_answers(v@, examples@[j as int].1@, examples@[j as int].0@));
                    }
                    return false;
                }
            },
            None => {
                return false;
            },
        }
        j = j + 1;
    }
    true
}

/// Whether a program's top tag marks it string-sorted: the input, a
/// string constant, a concatenation, or a slice.
pub open spec fn string_tagged(a: ASTV) -> bool {
    match a {
        ASTV::Lit(l) => l is Input || l is Str,
        ASTV::App { fun, .. } => fun == Fun::Concat || fun == Fun::Slice,
    }
}

/// Whether a program's top tag marks it location-sorted: a location or
/// end-sentinel constant, a match position, or location arithmetic.
pub open spec fn loc_tagged(a: ASTV) -> bool {
    match a {
        ASTV::Lit(l) => l is Loc || l is End,
        ASTV::App { fun, .. } => fun == Fun::Find || fun == Fun::LocAdd || fun == Fun::LocSub,
    }
}

/// Whether an application's arguments each carry the tag its position
/// expects: strings for a concatenation and for a match's haystack and
/// pattern, locations for slice bounds, location arithmetic, and a
/// match's index. Literals expect nothing.
pub open spec fn arg_sort_ok(a: ASTV) -> bool {
    match a {
        ASTV::Lit(_) => true,
        ASTV::App { fun, args } => match fun {
            Fun::Concat => args.len() == 2 && string_tagged(args[0]) && string_tagged(args[1]),
            Fun::Slice => args.len() == 2 && loc_tagged(args[0]) && loc_tagged(args[1]),
            Fun::LocAdd | Fun::LocSub => args.len() == 2 && loc_tagged(args[0]) && loc_tagged(
                args[1],
            ),
            Fun::Find => args.len() == 3 && string_tagged(args[0]) && string_tagged(args[1])
                && loc_tagged(args[2]),
            _ => true,
        },
    }
}

/// Whether a candidate's top node makes it a string-sorted expression.
fn is_string_tag(e: &AST) -> (r: bool)
    ensures
        r == string_tagged(e@),
{
    match e {
        AST::Lit(Lit::Input) => true,
        AST::Lit(Lit::StringConst(_)) => true,
        AST::App { fun: Fun::Concat, .. } => true,
        AST::App { fun: Fun::Slice, .. } => true,
        _ => {
            proof {
                match e {
                    AST::App { fun, args } => {
                        crate::lang::lemma_ast_view_app(*fun, *args);
                        assert(*e == AST::App { fun: *fun, args: *args });
                    },
                    AST::Lit(l) => {
                        assert(*e == AST::Lit(*l));
                    },
                }
            }
            false
        },
    }
}

/// Whether a candidate's top node makes it a location-sorted expression.
fn is_loc_tag(e: &AST) -> (r: bool)
    ensures
        r == loc_tagged(e@),
{
    match e {
        AST::Lit(Lit::LocConst(_)) => true,
        AST::Lit(Lit::LocEnd) => true,
        AST::App { fun: Fun::Find, .. } => true,
        AST::App { fun: Fun::LocAdd, .. } => true,
        AST::App { fun: Fun::LocSub, .. } => true,
        _ => {
            proof {
                match e {
                    AST::App { fun, args } => {
                        crate::lang::lemma_ast_view_app(*fun, *args);
                        assert(*e == AST::App { fun: *fun, args: *args });
                    },
                    AST::Lit(l) => {
                        assert(*e == AST::Lit(*l));
                    },
                }
            }
            false
        },
    }
}

/// A cached row is consistent: its key has one output per example, and
/// every program of its space fulfils the key's output on each input.
pub open spec fn row_consistent(val: VSA, ks: Seq<LitV>, inps: Seq<LitV>) -> bool {
    ks.len() == inps.len() && forall|j: int|
        0 <= j < inps.len() ==> space_consistent(val, #[trigger] inps[j], ks[j])
}

/// Every row of the output-indexed cache is consistent with the inputs.
pub open spec fn outs_cache_consistent(c: &VsaCache, inps: Seq<LitV>) -> bool {
    forall|t: int|
        0 <= t < c.keys_view().len() ==> row_consistent(
            #[trigger] c.vals_view()[t],
            c.keys_view()[t],
            inps,
        )
}

/// The output vector of a candidate: its value on every input, in order.
pub open spec fn out_vec(q: ASTV, inps: Seq<LitV>) -> Seq<LitV> {
    Seq::new(inps.len(), |j: int| eval_ast(q, inps[j])->Some_0)
}

/// Whether a candidate is recorded in the output-indexed cache: it
/// evaluates on every input, and some row holds its output vector as
/// key, with exactly this candidate as the row's space.
pub open spec fn recorded(q: ASTV, c: VsaCache, inps: Seq<LitV>) -> bool {
    &&& (forall|j: int| 0 <= j < inps.len() ==> eval_ast(q, #[trigger] inps[j]) is Some)
    &&& exists|t: int|
        0 <= t < c.keys_view().len() && #[trigger] c.keys_view()[t] == out_vec(q, inps) && (
        forall|p: ASTV| #[trigger] vsa_contains(c.vals_view()[t], p) <==> p == q)
}

/// A recorded candidate stays recorded when the cache only gains rows.
proof fn lemma_recorded_stable(q: ASTV, c1: VsaCache, c2: VsaCache, inps: Seq<LitV>)
    requires
        recorded(q, c1, inps),
        c1.wf(),
        c1.keys_view().is_prefix_of(c2.keys_view()),
        c1.vals_view().is_prefix_of(c2.vals_view()),
    ensures
        recorded(q, c2, inps),
{
    c1.lemma_lens();
    let t = choose|t: int|
        0 <= t < c1.keys_view().len() && #[trigger] c1.keys_view()[t] == out_vec(q, inps) && (
        forall|p: ASTV| #[trigger] vsa_contains(c1.vals_view()[t], p) <==> p == q);
    assert(c2.keys_view()[t] == c1.keys_view()[t]);
    assert(c2.vals_view()[t] == c1.vals_view()[t]);
}

/// How one enumeration round relates to its starting state: the cache
/// only gains rows, slots other than the requested one are untouched,
/// the requested slot is only appended to, every appended program is
/// recorded under its output vector, and no two appended programs share
/// an output vector.
pub open spec fn enumeration_extends(
    c0k: Seq<Seq<LitV>>,
    c0v: Seq<VSA>,
    g0: Seq<Seq<ASTV>>,
    c: VsaCache,
    bv: Seq<Seq<ASTV>>,
    iv: Seq<LitV>,
    size: int,
) -> bool {
    &&& c0k.is_prefix_of(c.keys_view())
    &&& c0v.is_prefix_of(c.vals_view())
    &&& bv.len() == g0.len()
    &&& (forall|i: int| 0 <= i < bv.len() && i != size - 1 ==> #[trigger] bv[i] == g0[i])
    &&& g0[size - 1].is_prefix_of(bv[size - 1])
    &&& (forall|jj: int|
        g0[size - 1].len() <= jj < bv[size - 1].len() ==> recorded(
            #[trigger] bv[size - 1][jj],
            c,
            iv,
        ) && arg_sort_ok(bv[size - 1][jj]))
    &&& (forall|j1: int, j2: int|
        #![trigger bv[size - 1][j1], bv[size - 1][j2]]
        g0[size - 1].len() <= j1 < j2 < bv[size - 1].len() ==> out_vec(bv[size - 1][j1], iv)
            != out_vec(bv[size - 1][j2], iv))
}

/// One candidate consideration preserves the enumeration relation.
proof fn lemma_enum_step(
    c0k: Seq<Seq<LitV>>,
    c0v: Seq<VSA>,
    g0: Seq<Seq<ASTV>>,
    cpre: VsaCache,
    cpost: VsaCache,
    bpre: Seq<Seq<ASTV>>,
    bpost: Seq<Seq<ASTV>>,
    iv: Seq<LitV>,
    size: int,
    cand: ASTV,
)
    requires
        enumeration_extends(c0k, c0v, g0, cpre, bpre, iv, size),
        cpre.wf(),
        1 <= size <= bpre.len(),
        cpre.keys_view().is_prefix_of(cpost.keys_view()),
        cpre.vals_view().is_prefix_of(cpost.vals_view()),
        forall|q: ASTV| #[trigger] recorded(q, cpre, iv) ==> recorded(q, cpost, iv),
        bpost.len() == bpre.len(),
        forall|i: int| 0 <= i < bpre.len() && i != size - 1 ==> #[trigger] bpost[i] == bpre[i],
        bpre[size - 1].is_prefix_of(bpost[size - 1]),
        bpost[size - 1] != bpre[size - 1] ==> bpost[size - 1] == bpre[size - 1].push(cand)
            && !cpre.has_key(out_vec(cand, iv)) && recorded(cand, cpost, iv),
        arg_sort_ok(cand),
    ensures
        enumeration_extends(c0k, c0v, g0, cpost, bpost, iv, size),
{
    assert(c0k.is_prefix_of(cpost.keys_view()));
    assert(c0v.is_prefix_of(cpost.vals_view()));
    assert forall|j1: int|
        0 <= j1 < bpre[size - 1].len() implies #[trigger] bpost[size - 1][j1] == bpre[size
        - 1][j1] by {}
    assert forall|jj: int|
        g0[size - 1].len() <= jj < bpost[size - 1].len() implies recorded(
        #[trigger] bpost[size - 1][jj],
        cpost,
        iv,
    ) && arg_sort_ok(bpost[size - 1][jj]) by {
        if jj < bpre[size - 1].len() {
            assert(recorded(bpre[size - 1][jj], cpre, iv) && arg_sort_ok(
                bpre[size - 1][jj],
            ));
        } else {
            assert(bpost[size - 1] == bpre[size - 1].push(cand));
            assert(bpost[size - 1][jj] == cand);
        }
    }
    assert forall|j1: int, j2: int|
        #![trigger bpost[size - 1][j1], bpost[size - 1][j2]]
        g0[size - 1].len() <= j1 < j2 < bpost[size - 1].len() implies out_vec(
        bpost[size - 1][j1],
        iv,
    ) != out_vec(bpost[size - 1][j2], iv) by {
        if j2 < bpre[size - 1].len() {
            assert(bpost[size - 1][j1] == bpre[size - 1][j1]);
            assert(bpost[size - 1][j2] == bpre[size - 1][j2]);
        } else {
            assert(bpost[size - 1] == bpre[size - 1].push(cand));
            assert(bpost[size - 1][j2] == cand);
            assert(bpost[size - 1][j1] == bpre[size - 1][j1]);
            let q = bpre[size - 1][j1];
            assert(recorded(q, cpre, iv));
            let t = choose|t: int|
                0 <= t < cpre.keys_view().len() && #[trigger] cpre.keys_view()[t] == out_vec(
                    q,
                    iv,
                ) && (forall|p: ASTV| #[trigger] vsa_contains(cpre.vals_view()[t], p) <==> p
                    == q);
            assert(cpre.has_key(out_vec(q, iv)));
            assert(!cpre.has_key(out_vec(cand, iv)));
        }
    }
}

/// Every slot of the bank holds programs of exactly the slot's size.
pub open spec fn bank_sized(bv: Seq<Seq<ASTV>>) -> bool {
    forall|i: int, j: int|
        0 <= i < bv.len() && 0 <= j < bv[i].len() ==> size_v(#[trigger] bv[i][j]) == i + 1
}

/// The programs of the bank's slot `n` whose top tag has the wanted
/// sort, as copies.
fn sorted_slot(bank: &Bank, n: usize, want_string: bool) -> (r: Vec<AST>)
    requires
        1 <= n <= bank.entries.len(),
        bank_sized(bank@),
    ensures
        forall|j: int| 0 <= j < r.len() ==> size_v(ast_view(#[trigger] r[j])) == n,
        want_string ==> forall|j: int|
            0 <= j < r.len() ==> string_tagged(ast_view(#[trigger] r[j])),
        !want_string ==> forall|j: int|
            0 <= j < r.len() ==> loc_tagged(ast_view(#[trigger] r[j])),
{
    let slot = bank.size(n);
    let ghost sv = bank@[n - 1];
    proof {
        crate::lang::lemma_args_view(*slot, slot.len() as int);
    }
    let mut r: Vec<AST> = Vec::new();
    let mut i: usize = 0;
    while i < slot.len()
        invariant
            i <= slot.len(),
            args_view(*slot) == sv,
            sv.len() == slot.len(),
            forall|j: int| 0 <= j < slot.len() ==> sv[j] == ast_view(slot[j]),
            forall|j: int| 0 <= j < r.len() ==> size_v(ast_view(#[trigger] r[j])) == n,
            want_string ==> forall|j: int|
                0 <= j < r.len() ==> string_tagged(ast_view(#[trigger] r[j])),
            !want_string ==> forall|j: int|
                0 <= j < r.len() ==> loc_tagged(ast_view(#[trigger] r[j])),
        decreases slot.len() - i,
    {
        let keep = if want_string {
            is_string_tag(&slot[i])
        } else {
            is_loc_tag(&slot[i])
        };
        if keep {
            proof {
                assert(sv[i as int] == ast_view(slot[i as int]));
                assert(size_v(ast_view(slot[i as int])) == n);
            }
            let d = slot[i].dup();
            r.push(d);
        }
        i = i + 1;
    }
    r
}

/// Evaluates a candidate on every input; deduplicates it against the
/// output-indexed cache; a first-seen candidate is recorded there and
/// added to the bank's slot for `size`.
fn consider(
    cand: AST,
    size: usize,
    inps: &Vec<Lit>,
    cache: &mut VsaCache,
    bank: &mut Bank,
    rcache: &mut RegexCache,
)
    requires
        1 <= size,
        old(cache).wf(),
        cache_vsas_wf(old(cache)),
        outs_cache_consistent(old(cache), lits_view(*inps)),
        old(rcache).wf(),
        bank_sized(old(bank)@),
        old(bank).entries.len() >= size,
        size_v(cand@) == size,
    ensures
        final(cache).wf(),
        cache_vsas_wf(final(cache)),
        outs_cache_consistent(final(cache), lits_view(*inps)),
        final(rcache).wf(),
        bank_sized(final(bank)@),
        final(bank).entries.len() == old(bank).entries.len(),
        old(cache).keys_view().is_prefix_of(final(cache).keys_view()),
        old(cache).vals_view().is_prefix_of(final(cache).vals_view()),
        forall|q: ASTV|
            #[trigger] recorded(q, *old(cache), lits_view(*inps)) ==> recorded(
                q,
                *final(cache),
                lits_view(*inps),
            ),
        final(bank)@.len() == old(bank)@.len(),
        forall|i: int|
            0 <= i < old(bank)@.len() && i != size - 1 ==> #[trigger] final(bank)@[i] == old(
                bank,
            )@[i],
        old(bank)@[size - 1].is_prefix_of(final(bank)@[size - 1]),
        final(bank)@[size - 1] != old(bank)@[size - 1] ==> final(bank)@[size - 1] == old(
            bank,
        )@[size - 1].push(cand@) && !old(cache).has_key(out_vec(cand@, lits_view(*inps)))
            && recorded(cand@, *final(cache), lits_view(*inps)),
{
    let ghost iv = lits_view(*inps);
    let mut outs: Vec<Lit> = Vec::new();
    let mut j: usize = 0;
    while j < inps.len()
        invariant
            rcache.wf(),
            j <= inps.len(),
            outs@.len() == j,
            forall|jj: int|
                0 <= jj < j ==> Some(#[trigger] outs[jj]@) == eval_ast(cand@, iv[jj]) && !(
                outs[jj]@ is Input),
        decreases inps.len() - j,
    {
        proof {
            assert(iv[j as int] == inps[j as int]@);
        }
        let evaled = cand.try_eval(&inps[j], rcache);
        match evaled {
            Some(v) => {
                if matches!(v, Lit::Input) {
                    // forward evaluation of these operators never yields
                    // the placeholder; such a value could not serve as an
                    // output key
                    return ;
                }
                outs.push(v);
            },
            None => {
                return ;
            },
        }
        j = j + 1;
    }
    let ghost ov = lits_view(outs);
    let single = VSA::singleton(cand.dup());
    let ghost sg = single;
    let added = cache.try_insert(outs, Rc::new(single));
    if added {
        proof {
            assert(cache_vsas_wf(cache)) by {
                assert forall|i: int| 0 <= i < cache.vals_view().len() implies wf_vsa(
                    #[trigger] cache.vals_view()[i],
                ) by {
                    if i < old(cache).vals_view().len() {
                        assert(cache.vals_view()[i] == old(cache).vals_view()[i]);
                    }
                }
            }
            assert(outs_cache_consistent(cache, iv)) by {
                cache.lemma_lens();
                old(cache).lemma_lens();
                assert forall|t: int|
                    0 <= t < cache.keys_view().len() implies row_consistent(
                    #[trigger] cache.vals_view()[t],
                    cache.keys_view()[t],
                    iv,
                ) by {
                    if t < old(cache).keys_view().len() {
                        assert(cache.vals_view()[t] == old(cache).vals_view()[t]);
                        assert(cache.keys_view()[t] == old(cache).keys_view()[t]);
                    } else {
                        assert(cache.keys_view()[t] == ov);
                        assert(cache.vals_view()[t] == sg);
                        assert forall|jj: int|
                            0 <= jj < iv.len() implies space_consistent(
                            sg,
                            #[trigger] iv[jj],
                            ov[jj],
                        ) by {
                            assert(ov[jj] == outs[jj]@);
                            assert forall|p: ASTV| #[trigger]
                                vsa_contains(sg, p) implies (eval_ast(p, iv[jj]) matches Some(
                                    vv,
                                ) && answers_goal(vv, ov[jj], iv[jj])) by {
                                assert(p == cand@);
                            }
                        }
                    }
                }
            }
        }
        let ghost pre = bank@;
        let slot = bank.size_mut(size);
        let ghost pre_slot_view = args_view(*slot);
        let ghost pre_elems = slot@;
        proof {
            assert(crate::bank::grow_spec(pre, size as nat) == pre);
            assert(pre_slot_view == pre[size - 1]);
            crate::lang::lemma_args_view(*slot, slot.len() as int);
        }
        slot.push(cand);
        proof {
            crate::lang::lemma_args_view(*slot, slot.len() as int);
            assert(slot@ == pre_elems.push(cand));
            assert forall|j2: int|
                0 <= j2 < args_view(*slot).len() implies size_v(
                #[trigger] args_view(*slot)[j2],
            ) == size by {
                assert(args_view(*slot)[j2] == ast_view(slot[j2]));
                if j2 < pre_elems.len() {
                    assert(slot[j2] == pre_elems[j2]);
                    assert(pre_slot_view[j2] == ast_view(pre_elems[j2]));
                    assert(size_v(pre_slot_view[j2]) == size);
                } else {
                    assert(slot[j2] == cand);
                }
            }
        }
        proof {
            assert(bank@[size - 1] == args_view(*final(slot)));
            assert forall|i: int, j2: int|
                0 <= i < bank@.len() && 0 <= j2 < bank@[i].len() implies size_v(
                #[trigger] bank@[i][j2],
            ) == i + 1 by {
                if i != size - 1 {
                    assert(bank@[i] == pre[i]);
                }
            }
            cache.lemma_lens();
            old(cache).lemma_lens();
            assert(cache.keys_view() == old(cache).keys_view().push(ov));
            assert(old(cache).keys_view().is_prefix_of(cache.keys_view()));
            assert(old(cache).vals_view().is_prefix_of(cache.vals_view()));
            assert forall|q: ASTV| #[trigger]
                recorded(q, *old(cache), iv) implies recorded(q, *cache, iv) by {
                lemma_recorded_stable(q, *old(cache), *cache, iv);
            }
            assert(ov =~= out_vec(cand@, iv));
            assert(!old(cache).has_key(out_vec(cand@, iv)));
            let t = old(cache).keys_view().len() as int;
            assert(cache.keys_view()[t] == out_vec(cand@, iv));
            assert(cache.vals_view()[t] == sg);
            assert(forall|p: ASTV| #[trigger] vsa_contains(sg, p) <==> p == cand@);
            assert(recorded(cand@, *cache, iv));
            assert forall|j2: int|
                0 <= j2 < pre_slot_view.len() implies pre_slot_view[j2] == bank@[size - 1][j2]
                by {
                assert(bank@[size - 1][j2] == ast_view(pre_elems[j2]));
            }
            assert(bank@[size - 1] =~= pre_slot_view.push(cand@));
            assert(pre_slot_view.is_prefix_of(bank@[size - 1]));
        }
    }
}

/// Bottom-up enumeration at exactly `size`: for each operator, for each
/// partition of the remaining size among the argument positions, every
/// combination of sort-matching smaller candidates is considered.
pub fn bottom_up(
    inps: &Vec<Lit>,
    size: usize,
    cache: &mut VsaCache,
    bank: &mut Bank,
    rcache: &mut RegexCache,
)
    requires
        1 <= size,
        old(cache).wf(),
        cache_vsas_wf(old(cache)),
        outs_cache_consistent(old(cache), lits_view(*inps)),
        old(rcache).wf(),
        bank_sized(old(bank)@),
    ensures
        final(cache).wf(),
        cache_vsas_wf(final(cache)),
        outs_cache_consistent(final(cache), lits_view(*inps)),
        final(rcache).wf(),
        bank_sized(final(bank)@),
        final(bank).entries.len() >= size,
        enumeration_extends(
            old(cache).keys_view(),
            old(cache).vals_view(),
            crate::bank::grow_spec(old(bank)@, size as nat),
            *final(cache),
            final(bank)@,
            lits_view(*inps),
            size as int,
        ),
{
    bank.grow_to(size);
    let ghost c0k = old(cache).keys_view();
    let ghost c0v = old(cache).vals_view();
    let ghost g0 = bank@;
    proof {
        assert(bank_sized(bank@));
        assert(g0 == crate::bank::grow_spec(old(bank)@, size as nat));
        assert(c0k =~= cache.keys_view().subrange(0, c0k.len() as int));
        assert(c0v =~= cache.vals_view().subrange(0, c0v.len() as int));
        assert(g0[size - 1] =~= bank@[size - 1].subrange(0, g0[size - 1].len() as int));
        assert(enumeration_extends(c0k, c0v, g0, *cache, bank@, lits_view(*inps), size as int));
    }
    if size < 3 {
        // a literal fills size 1 (seeded by the driver); no application
        // fits in fewer than 3 nodes
        return ;
    }
    // binary operators: argument sizes partition size - 1
    let mut i: usize = 1;
    while i < size - 1
        invariant
            1 <= i <= size - 1,
            3 <= size <= bank.entries.len(),
            cache.wf(),
            cache_vsas_wf(cache),
            outs_cache_consistent(cache, lits_view(*inps)),
            enumeration_extends(c0k, c0v, g0, *cache, bank@, lits_view(*inps), size as int),
            rcache.wf(),
            bank_sized(bank@),
        decreases size - 1 - i,
    {
        let lhs_size = i;
        let rhs_size = size - 1 - i;
        let locs_l = sorted_slot(bank, lhs_size, false);
        let locs_r = sorted_slot(bank, rhs_size, false);
        let strs_l = sorted_slot(bank, lhs_size, true);
        let strs_r = sorted_slot(bank, rhs_size, true);
        let mut a: usize = 0;
        while a < locs_l.len()
            invariant
                3 <= size <= bank.entries.len(),
                cache.wf(),
                cache_vsas_wf(cache),
                outs_cache_consistent(cache, lits_view(*inps)),
                enumeration_extends(c0k, c0v, g0, *cache, bank@, lits_view(*inps), size as int),
                rcache.wf(),
                bank_sized(bank@),
                forall|j: int|
                    0 <= j < locs_l.len() ==> size_v(ast_view(#[trigger] locs_l[j]))
                        == lhs_size,
                forall|j: int|
                    0 <= j < locs_r.len() ==> size_v(ast_view(#[trigger] locs_r[j]))
                        == rhs_size,
            decreases locs_l.len() - a,
        {
            let mut b: usize = 0;
            while b < locs_r.len()
                invariant
                    3 <= size <= bank.entries.len(),
                    a < locs_l.len(),
                    cache.wf(),
                    cache_vsas_wf(cache),
                    outs_cache_consistent(cache, lits_view(*inps)),
                    enumeration_extends(c0k, c0v, g0, *cache, bank@, lits_view(*inps), size as int),
                    rcache.wf(),
                    bank_sized(bank@),
                    forall|j: int|
                        0 <= j < locs_l.len() ==> size_v(ast_view(#[trigger] locs_l[j]))
                            == lhs_size,
                    forall|j: int|
                        0 <= j < locs_r.len() ==> size_v(ast_view(#[trigger] locs_r[j]))
                            == rhs_size,
                decreases locs_r.len() - b,
            {
                let c1 = mk_app2(Fun::LocAdd, &locs_l[a], &locs_r[b]);
                let ghost c1_view = c1@;
                let ghost cache_pre = *cache;
                let ghost bank_pre = bank@;
                consider(c1, size, inps, cache, bank, rcache);
                proof {
                    lemma_enum_step(
                        c0k,
                        c0v,
                        g0,
                        cache_pre,
                        *cache,
                        bank_pre,
                        bank@,
                        lits_view(*inps),
                        size as int,
                        c1_view,
                    );
                }
                let c2 = mk_app2(Fun::LocSub, &locs_l[a], &locs_r[b]);
                let ghost c2_view = c2@;
                let ghost cache_pre = *cache;
                let ghost bank_pre = bank@;
                consider(c2, size, inps, cache, bank, rcache);
                proof {
                    lemma_enum_step(
                        c0k,
                        c0v,
                        g0,
                        cache_pre,
                        *cache,
                        bank_pre,
                        bank@,
                        lits_view(*inps),
                        size as int,
                        c2_view,
                    );
                }
                let c3 = mk_app2(Fun::Slice, &locs_l[a], &locs_r[b]);
                let ghost c3_view = c3@;
                let ghost cache_pre = *cache;
                let ghost bank_pre = bank@;
                consider(c3, size, inps, cache, bank, rcache);
                proof {
                    lemma_enum_step(
                        c0k,
                        c0v,
                        g0,
                        cache_pre,
                        *cache,
                        bank_pre,
                        bank@,
                        lits_view(*inps),
                        size as int,
                        c3_view,
                    );
                }
                b = b + 1;
            }
            a = a + 1;
        }
        let mut a2: usize = 0;
        while a2 < strs_l.len()
            invariant
                3 <= size <= bank.entries.len(),
                cache.wf(),
                cache_vsas_wf(cache),
                outs_cache_consistent(cache, lits_view(*inps)),
                enumeration_extends(c0k, c0v, g0, *cache, bank@, lits_view(*inps), size as int),
                rcache.wf(),
                bank_sized(bank@),
                forall|j: int|
                    0 <= j < strs_l.len() ==> size_v(ast_view(#[trigger] strs_l[j]))
                        == lhs_size,
                forall|j: int|
                    0 <= j < strs_r.len() ==> size_v(ast_view(#[trigger] strs_r[j]))
                        == rhs_size,
            decreases strs_l.len() - a2,
        {
            let mut b2: usize = 0;
            while b2 < strs_r.len()
                invariant
                    3 <= size <= bank.entries.len(),
                    a2 < strs_l.len(),
                    cache.wf(),
                    cache_vsas_wf(cache),
                    outs_cache_consistent(cache, lits_view(*inps)),
                    enumeration_extends(c0k, c0v, g0, *cache, bank@, lits_view(*inps), size as int),
                    rcache.wf(),
                    bank_sized(bank@),
                    forall|j: int|
                        0 <= j < strs_l.len() ==> size_v(ast_view(#[trigger] strs_l[j]))
                            == lhs_size,
                    forall|j: int|
                        0 <= j < strs_r.len() ==> size_v(ast_view(#[trigger] strs_r[j]))
                            == rhs_size,
                decreases strs_r.len() - b2,
            {
                let c1 = mk_app2(Fun::Concat, &strs_l[a2], &strs_r[b2]);
                let ghost c1_view = c1@;
                let ghost cache_pre = *cache;
                let ghost bank_pre = bank@;
                consider(c1, size, inps, cache, bank, rcache);
                proof {
                    lemma_enum_step(
                        c0k,
                        c0v,
                        g0,
                        cache_pre,
                        *cache,
                        bank_pre,
                        bank@,
                        lits_view(*inps),
                        size as int,
                        c1_view,
                    );
                }
                b2 = b2 + 1;
            }
            a2 = a2 + 1;
        }
        i = i + 1;
    }
    // the ternary match operator: argument sizes partition size - 1
    if size >= 4 {
        let mut l: usize = 1;
        while l < size - 2
            invariant
                1 <= l <= size - 2,
                4 <= size <= bank.entries.len(),
                cache.wf(),
                cache_vsas_wf(cache),
                outs_cache_consistent(cache, lits_view(*inps)),
                enumeration_extends(c0k, c0v, g0, *cache, bank@, lits_view(*inps), size as int),
                rcache.wf(),
                bank_sized(bank@),
            decreases size - 2 - l,
        {
            let mut r: usize = l + 1;
            while r < size - 1
                invariant
                    l < r <= size - 1,
                    4 <= size <= bank.entries.len(),
                    cache.wf(),
                    cache_vsas_wf(cache),
                    outs_cache_consistent(cache, lits_view(*inps)),
                    enumeration_extends(c0k, c0v, g0, *cache, bank@, lits_view(*inps), size as int),
                    rcache.wf(),
                    bank_sized(bank@),
                decreases size - 1 - r,
            {
                let s1 = l;
                let s2 = r - l;
                let s3 = size - 1 - r;
                let strs_1 = sorted_slot(bank, s1, true);
                let strs_2 = sorted_slot(bank, s2, true);
                let locs_3 = sorted_slot(bank, s3, false);
                let mut a: usize = 0;
                while a < strs_1.len()
                    invariant
                        4 <= size <= bank.entries.len(),
                        cache.wf(),
                        cache_vsas_wf(cache),
                        outs_cache_consistent(cache, lits_view(*inps)),
                        enumeration_extends(c0k, c0v, g0, *cache, bank@, lits_view(*inps), size as int),
                        rcache.wf(),
                        bank_sized(bank@),
                        forall|j: int|
                            0 <= j < strs_1.len() ==> size_v(ast_view(#[trigger] strs_1[j]))
                                == s1,
                        forall|j: int|
                            0 <= j < strs_2.len() ==> size_v(ast_view(#[trigger] strs_2[j]))
                                == s2,
                        forall|j: int|
                            0 <= j < locs_3.len() ==> size_v(ast_view(#[trigger] locs_3[j]))
                                == s3,
                    decreases strs_1.len() - a,
                {
                    let mut b: usize = 0;
                    while b < strs_2.len()
                        invariant
                            4 <= size <= bank.entries.len(),
                            a < strs_1.len(),
                            cache.wf(),
                            cache_vsas_wf(cache),
                            outs_cache_consistent(cache, lits_view(*inps)),
                            enumeration_extends(c0k, c0v, g0, *cache, bank@, lits_view(*inps), size as int),
                            rcache.wf(),
                            bank_sized(bank@),
                            forall|j: int|
                                0 <= j < strs_1.len() ==> size_v(
                                    ast_view(#[trigger] strs_1[j]),
                                ) == s1,
                            forall|j: int|
                                0 <= j < strs_2.len() ==> size_v(
                                    ast_view(#[trigger] strs_2[j]),
                                ) == s2,
                            forall|j: int|
                                0 <= j < locs_3.len() ==> size_v(
                                    ast_view(#[trigger] locs_3[j]),
                                ) == s3,
                        decreases strs_2.len() - b,
                    {
                        let mut c: usize = 0;
                        while c < locs_3.len()
                            invariant
                                4 <= size <= bank.entries.len(),
                                a < strs_1.len(),
                                b < strs_2.len(),
                                cache.wf(),
                                cache_vsas_wf(cache),
                                outs_cache_consistent(cache, lits_view(*inps)),
                                enumeration_extends(c0k, c0v, g0, *cache, bank@, lits_view(*inps), size as int),
                                rcache.wf(),
                                bank_sized(bank@),
                                forall|j: int|
                                    0 <= j < strs_1.len() ==> size_v(
                                        ast_view(#[trigger] strs_1[j]),
                                    ) == s1,
                                forall|j: int|
                                    0 <= j < strs_2.len() ==> size_v(
                                        ast_view(#[trigger] strs_2[j]),
                                    ) == s2,
                                forall|j: int|
                                    0 <= j < locs_3.len() ==> size_v(
                                        ast_view(#[trigger] locs_3[j]),
                                    ) == s3,
                            decreases locs_3.len() - c,
                        {
                            let cand = mk_app3(
                                Fun::Find,
                                &strs_1[a],
                                &strs_2[b],
                                &locs_3[c],
                            );
                            let ghost cand_view = cand@;
                            let ghost cache_pre = *cache;
                            let ghost bank_pre = bank@;
                            consider(cand, size, inps, cache, bank, rcache);
                            proof {
                                lemma_enum_step(
                                    c0k,
                                    c0v,
                                    g0,
                                    cache_pre,
                                    *cache,
                                    bank_pre,
                                    bank@,
                                    lits_view(*inps),
                                    size as int,
                                    cand_view,
                                );
                            }
                            c = c + 1;
                        }
                        b = b + 1;
                    }
                    a = a + 1;
                }
                r = r + 1;
            }
            l = l + 1;
        }
    }
}

/// An application of a binary operator to copies of two candidates.
fn mk_app2(fun: Fun, a: &AST, b: &AST) -> (r: AST)
    ensures
        size_v(r@) == 1 + size_v(a@) + size_v(b@),
        r@ matches ASTV::App { fun: f, args } && f == fun && args.len() == 2 && args[0] == a@
            && args[1] == b@,
{
    let mut args: Vec<AST> = Vec::new();
    args.push(a.dup());
    args.push(b.dup());
    let r = AST::App { fun, args };
    proof {
        crate::lang::lemma_ast_view_app(fun, args);
        let av = r@->App_args;
        assert(av.len() == 2);
        assert(av[0] == a@ && av[1] == b@);
        assert(crate::lang::size_args_n(av, 2) == crate::lang::size_args_n(av, 1) + size_v(
            av[1],
        ));
        assert(crate::lang::size_args_n(av, 1) == crate::lang::size_args_n(av, 0) + size_v(
            av[0],
        ));
    }
    r
}

/// An application of a ternary operator to copies of three candidates.
fn mk_app3(fun: Fun, a: &AST, b: &AST, c: &AST) -> (r: AST)
    ensures
        size_v(r@) == 1 + size_v(a@) + size_v(b@) + size_v(c@),
        r@ matches ASTV::App { fun: f, args } && f == fun && args.len() == 3 && args[0] == a@
            && args[1] == b@ && args[2] == c@,
{
    let mut args: Vec<AST> = Vec::new();
    args.push(a.dup());
    args.push(b.dup());
    args.push(c.dup());
    let r = AST::App { fun, args };
    proof {
        crate::lang::lemma_ast_view_app(fun, args);
        let av = r@->App_args;
        assert(av.len() == 3);
        assert(av[0] == a@ && av[1] == b@ && av[2] == c@);
        assert(crate::lang::size_args_n(av, 3) == crate::lang::size_args_n(av, 2) + size_v(
            av[2],
        ));
        assert(crate::lang::size_args_n(av, 2) == crate::lang::size_args_n(av, 1) + size_v(
            av[1],
        ));
        assert(crate::lang::size_args_n(av, 1) == crate::lang::size_args_n(av, 0) + size_v(
            av[0],
        ));
    }
    r
}


/// The single-character seed for a punctuation character, escaped where
/// the regex engine would read it as an operator.
fn escape_seed(c: char) -> (r: String) {
    match c {
        '.' => String::from_str("\\."),
        '{' => String::from_str("\\{"),
        '}' => String::from_str("\\}"),
        '(' => String::from_str("\\("),
        ')' => String::from_str("\\)"),
        '[' => String::from_str("\\["),
        ']' => String::from_str("\\]"),
        '*' => String::from_str("\\*"),
        '+' => String::from_str("\\+"),
        '?' => String::from_str("\\?"),
        '|' => String::from_str("\\|"),
        '^' => String::from_str("\\^"),
        '$' => String::from_str("\\$"),
        '\\' => String::from_str("\\\\"),
        _ => crate::strutil::char_to_string(c),
    }
}

/// The escaped non-alphanumeric characters of one example's input and
/// output, as single-character pattern seeds, deduplicated.
fn example_punct(inp: &Lit, out: &Lit) -> (r: Vec<String>) {
    let mut cs: Vec<char> = Vec::new();
    match inp {
        Lit::StringConst(s) => {
            let mut v = crate::strutil::collect_chars(s.as_str());
            cs.append(&mut v);
        },
        _ => {},
    }
    match out {
        Lit::StringConst(s) => {
            let mut v = crate::strutil::collect_chars(s.as_str());
            cs.append(&mut v);
        },
        _ => {},
    }
    let mut r: Vec<String> = Vec::new();
    let mut i: usize = 0;
    while i < cs.len()
        decreases cs.len() - i,
    {
        if !crate::strutil::char_is_alphanumeric(cs[i]) {
            let seed = escape_seed(cs[i]);
            let mut seen = false;
            let mut j: usize = 0;
            while j < r.len()
                decreases r.len() - j,
            {
                if r[j].as_str() == seed.as_str() {
                    seen = true;
                }
                j = j + 1;
            }
            if !seen {
                r.push(seed);
            }
        }
        i = i + 1;
    }
    r
}

/// The punctuation seeds common to every example.
fn common_punct(examples: &[(Lit, Lit)]) -> (r: Vec<String>)
    requires
        examples@.len() >= 1,
{
    let (i0, o0) = &examples[0];
    let base = example_punct(i0, o0);
    let mut r: Vec<String> = Vec::new();
    let mut i: usize = 0;
    while i < base.len()
        decreases base.len() - i,
    {
        let mut in_all = true;
        let mut e: usize = 1;
        while e < examples.len()
            decreases examples@.len() - e,
        {
            let (ie, oe) = &examples[e];
            let other = example_punct(ie, oe);
            let mut found = false;
            let mut j: usize = 0;
            while j < other.len()
                decreases other.len() - j,
            {
                if other[j].as_str() == base[i].as_str() {
                    found = true;
                }
                j = j + 1;
            }
            if !found {
                in_all = false;
            }
            e = e + 1;
        }
        if in_all {
            let mut copy = String::new();
            copy.append(base[i].as_str());
            r.push(copy);
        }
        i = i + 1;
    }
    r
}

/// Seeds one primitive: the bank's first slot gets the literal, and the
/// output-indexed cache assumes it produces itself on every example.
fn seed_primitive(
    prim: &Lit,
    inps: &Vec<Lit>,
    cache: &mut VsaCache,
    bank: &mut Bank,
)
    requires
        old(cache).wf(),
        cache_vsas_wf(old(cache)),
        outs_cache_consistent(old(cache), lits_view(*inps)),
        forall|j: int| 0 <= j < inps@.len() ==> (#[trigger] inps[j]@) is Str,
        bank_sized(old(bank)@),
        old(bank).entries.len() >= 1,
    ensures
        final(cache).wf(),
        cache_vsas_wf(final(cache)),
        outs_cache_consistent(final(cache), lits_view(*inps)),
        bank_sized(final(bank)@),
        final(bank).entries.len() == old(bank).entries.len(),
{
    let ghost iv = lits_view(*inps);
    let n_examples = inps.len();
    let ghost pre = bank@;
    let slot = bank.size_mut(1);
    let ghost pre_slot_view = args_view(*slot);
    let ghost pre_elems = slot@;
    proof {
        assert(crate::bank::grow_spec(pre, 1nat) == pre);
        assert(pre_slot_view == pre[0]);
        crate::lang::lemma_args_view(*slot, slot.len() as int);
    }
    let cand = AST::Lit(prim.dup());
    slot.push(cand);
    proof {
        crate::lang::lemma_args_view(*slot, slot.len() as int);
        assert forall|j2: int|
            0 <= j2 < args_view(*slot).len() implies size_v(
            #[trigger] args_view(*slot)[j2],
        ) == 1 by {
            assert(args_view(*slot)[j2] == ast_view(slot[j2]));
            if j2 < pre_elems.len() {
                assert(slot[j2] == pre_elems[j2]);
                assert(pre_slot_view[j2] == ast_view(pre_elems[j2]));
                assert(size_v(pre_slot_view[j2]) == 1);
            }
        }
    }
    proof {
        assert(bank@[0] == args_view(*final(slot)));
        assert forall|i: int, j2: int|
            0 <= i < bank@.len() && 0 <= j2 < bank@[i].len() implies size_v(
            #[trigger] bank@[i][j2],
        ) == i + 1 by {
            if i != 0 {
                assert(bank@[i] == pre[i]);
            }
        }
    }
    let mut keyv: Vec<Lit> = Vec::new();
    let mut j: usize = 0;
    while j < n_examples
        invariant
            j <= n_examples,
            keyv@.len() == j,
            forall|jj: int| 0 <= jj < j ==> (#[trigger] keyv[jj]@) == prim@,
        decreases n_examples - j,
    {
        keyv.push(prim.dup());
        j = j + 1;
    }
    let ghost kv = lits_view(keyv);
    proof {
        assert(kv.len() == iv.len());
    }
    let single = VSA::singleton(AST::Lit(prim.dup()));
    let ghost sg = single;
    let added = cache.try_insert(keyv, Rc::new(single));
    proof {
        assert forall|i: int| 0 <= i < cache.vals_view().len() implies wf_vsa(
            #[trigger] cache.vals_view()[i],
        ) by {
            if added && i < old(cache).vals_view().len() {
                assert(cache.vals_view()[i] == old(cache).vals_view()[i]);
            } else if !added {
                assert(cache.vals_view()[i] == old(cache).vals_view()[i]);
            }
        }
        assert(outs_cache_consistent(cache, iv)) by {
            cache.lemma_lens();
            old(cache).lemma_lens();
            assert forall|t: int|
                0 <= t < cache.keys_view().len() implies row_consistent(
                #[trigger] cache.vals_view()[t],
                cache.keys_view()[t],
                iv,
            ) by {
                if added && t == old(cache).keys_view().len() {
                    assert(cache.keys_view()[t] == kv);
                    assert(cache.vals_view()[t] == sg);
                    assert forall|jj: int|
                        0 <= jj < iv.len() implies space_consistent(
                        sg,
                        #[trigger] iv[jj],
                        kv[jj],
                    ) by {
                        assert(kv[jj] == keyv[jj]@);
                        assert(iv[jj] == inps[jj]@);
                        assert forall|p: ASTV| #[trigger]
                            vsa_contains(sg, p) implies (eval_ast(p, iv[jj]) matches Some(vv)
                            && answers_goal(vv, kv[jj], iv[jj])) by {
                            assert(p == ASTV::Lit(prim@));
                            if prim@ is Input {
                                assert(eval_ast(p, iv[jj]) == Some(iv[jj]));
                            } else {
                                assert(eval_ast(p, iv[jj]) == Some(prim@));
                            }
                        }
                    }
                } else {
                    assert(cache.keys_view()[t] == old(cache).keys_view()[t]);
                    assert(cache.vals_view()[t] == old(cache).vals_view()[t]);
                }
            }
        }
    }
}

/// Synthesizes one program consistent with every example, growing the
/// bank size by size up to the cap; a returned program has been checked
/// against all examples, and exceeding the cap without success gives the
/// explicit absent result.
pub fn top_down(examples: &[(Lit, Lit)]) -> (r: Option<AST>)
    requires
        examples@.len() >= 1,
        forall|j: int| 0 <= j < examples@.len() ==> (#[trigger] examples@[j]).0@ is Str,
    ensures
        r matches Some(p) ==> solves(p@, examples@),
        shared_string_output(examples@) ==> r is Some,
{
    let mut rcache = RegexCache::new(REGEX_CACHE_CAP);
    let mut bank = Bank::new();
    let mut all_cache = VsaCache::new();
    bank.grow_to(1);
    proof {
        assert(bank_sized(bank@));
    }
    let mut seeds: Vec<Lit> = Vec::new();
    seeds.push(Lit::Input);
    seeds.push(Lit::StringConst(String::from_str("")));
    seeds.push(Lit::StringConst(String::from_str(" ")));
    seeds.push(Lit::StringConst(String::from_str(".")));
    seeds.push(Lit::StringConst(String::from_str("\\s")));
    seeds.push(Lit::StringConst(String::from_str("\\d")));
    seeds.push(Lit::StringConst(String::from_str("\\b")));
    seeds.push(Lit::StringConst(String::from_str("[a-z]")));
    seeds.push(Lit::StringConst(String::from_str("[A-Z]")));
    seeds.push(Lit::LocConst(0));
    seeds.push(Lit::LocConst(1));
    seeds.push(Lit::LocEnd);
    let punct = common_punct(examples);
    let mut pi: usize = 0;
    while pi < punct.len()
        decreases punct.len() - pi,
    {
        let mut copy = String::new();
        copy.append(punct[pi].as_str());
        seeds.push(Lit::StringConst(copy));
        pi = pi + 1;
    }
    let mut inps: Vec<Lit> = Vec::new();
    let mut j: usize = 0;
    while j < examples.len()
        invariant
            j <= examples@.len(),
            inps@.len() == j,
            forall|jj: int| 0 <= jj < j ==> (#[trigger] inps[jj]@) == examples@[jj].0@,
        decreases examples@.len() - j,
    {
        let (inp, _) = &examples[j];
        inps.push(inp.dup());
        j = j + 1;
    }
    let mut si: usize = 0;
    while si < seeds.len()
        invariant
            all_cache.wf(),
            cache_vsas_wf(&all_cache),
            outs_cache_consistent(&all_cache, lits_view(inps)),
            bank_sized(bank@),
            bank.entries.len() >= 1,
        decreases seeds.len() - si,
    {
        seed_primitive(&seeds[si], &inps, &mut all_cache, &mut bank);
        si = si + 1;
    }
    let mut size: usize = 1;
    while size <= SIZE_CAP
        invariant
            1 <= size,
            shared_string_output(examples@) ==> size == 1,
            all_cache.wf(),
            cache_vsas_wf(&all_cache),
            outs_cache_consistent(&all_cache, lits_view(inps)),
            inps@.len() == examples@.len(),
            forall|jj: int|
                0 <= jj < inps@.len() ==> (#[trigger] inps[jj]@) == examples@[jj].0@,
            bank_sized(bank@),
            rcache.wf(),
        decreases SIZE_CAP + 1 - size,
    {
        bottom_up(&inps, size, &mut all_cache, &mut bank, &mut rcache);
        let mut spaces: Vec<Rc<VSA>> = Vec::new();
        let mut ei: usize = 0;
        while ei < examples.len()
            invariant
                ei <= examples@.len(),
                all_cache.wf(),
                cache_vsas_wf(&all_cache),
                outs_cache_consistent(&all_cache, lits_view(inps)),
                inps@.len() == examples@.len(),
                forall|jj: int|
                    0 <= jj < inps@.len() ==> (#[trigger] inps[jj]@) == examples@[jj].0@,
                spaces.len() == ei,
                forall|k: int| 0 <= k < spaces.len() ==> wf_vsa(*#[trigger] spaces[k]),
                forall|k: int|
                    0 <= k < spaces.len() ==> space_consistent(
                        *#[trigger] spaces[k],
                        examples@[k].0@,
                        examples@[k].1@,
                    ),
                forall|k: int|
                    0 <= k < spaces.len() && examples@[k].1@ is Str ==> vsa_contains(
                        *#[trigger] spaces[k],
                        ASTV::Lit(examples@[k].1@),
                    ),
            decreases examples@.len() - ei,
        {
            let ghost gi = examples@[ei as int].0@;
            let mut ex_cache = VsaCache::new();
            proof {
                assert(cache_consistent(&ex_cache, gi));
            }
            let mut t: usize = 0;
            while t < all_cache.len()
                invariant
                    ei < examples@.len(),
                    gi == examples@[ei as int].0@,
                    all_cache.wf(),
                    cache_vsas_wf(&all_cache),
                    outs_cache_consistent(&all_cache, lits_view(inps)),
                    inps@.len() == examples@.len(),
                    forall|jj: int|
                        0 <= jj < inps@.len() ==> (#[trigger] inps[jj]@) == examples@[jj].0@,
                    ex_cache.wf(),
                    cache_vsas_wf(&ex_cache),
                    cache_consistent(&ex_cache, gi),
                decreases all_cache.spec_len() - t,
            {
                let (k, v) = all_cache.entry_at(t);
                if ei < k.len() {
                    let mut key1: Vec<Lit> = Vec::new();
                    key1.push(k[ei].dup());
                    proof {
                        all_cache.lemma_lens();
                        assert(wf_vsa(**v));
                        assert(row_consistent(
                            all_cache.vals_view()[t as int],
                            all_cache.keys_view()[t as int],
                            lits_view(inps),
                        ));
                        assert(lits_view(inps)[ei as int] == gi);
                        assert(lits_view(key1) =~= seq![all_cache.keys_view()[t as int][ei as int]]);
                        assert(space_consistent(**v, gi, lits_view(key1)[0]));
                    }
                    let vv = rc_dup(v);
                    ex_cache.upsert_unify(key1, vv);
                }
                t = t + 1;
            }
            let (exi, exo) = &examples[ei];
            let learned = learn(exi, exo, &ex_cache);
            proof {
                assert(space_consistent(*learned, gi, examples@[ei as int].1@));
            }
            spaces.push(learned);
            ei = ei + 1;
        }
        let mut res: Rc<VSA> = rc_dup(&spaces[0]);
        let mut vi: usize = 1;
        while vi < spaces.len()
            invariant
                1 <= vi <= spaces.len(),
                spaces.len() == examples@.len(),
                wf_vsa(*res),
                rcache.wf(),
                forall|k: int| 0 <= k < spaces.len() ==> wf_vsa(*#[trigger] spaces[k]),
                forall|k: int|
                    0 <= k < spaces.len() ==> space_consistent(
                        *#[trigger] spaces[k],
                        examples@[k].0@,
                        examples@[k].1@,
                    ),
                forall|k: int|
                    0 <= k < spaces.len() && examples@[k].1@ is Str ==> vsa_contains(
                        *#[trigger] spaces[k],
                        ASTV::Lit(examples@[k].1@),
                    ),
                forall|k: int, p: ASTV|
                    0 <= k < vi && vsa_contains(*res, p) ==> #[trigger] vsa_contains(
                        *#[trigger] spaces[k],
                        p,
                    ),
                shared_string_output(examples@) ==> vsa_contains(
                    *res,
                    ASTV::Lit(examples@[0].1@),
                ),
            decreases spaces.len() - vi,
        {
            // short-circuit: an intermediate pick that already satisfies
            // every example is the answer
            let picked = (&*res).pick_one();
            match picked {
                Some(prog) => {
                    if check_examples(&prog, examples, &mut rcache) {
                        return Some(prog);
                    }
                },
                None => {},
            }
            let inter = (&*res).intersect(&*spaces[vi]);
            proof {
                if shared_string_output(examples@) {
                    assert(examples@[vi as int].1@ == examples@[0].1@);
                    assert(vsa_contains(*spaces[vi as int], ASTV::Lit(examples@[0].1@)));
                    assert(vsa_contains(inter, ASTV::Lit(examples@[0].1@)));
                }
            }
            res = Rc::new(inter);
            vi = vi + 1;
        }
        let best = (&*res).pick_best();
        match best {
            Some(prog) => {
                if check_examples(&prog, examples, &mut rcache) {
                    return Some(prog);
                }
                proof {
                    if shared_string_output(examples@) {
                        assert(solves(prog@, examples@)) by {
                            assert forall|j: int|
                                0 <= j < examples@.len() implies (eval_ast(
                                prog@,
                                (#[trigger] examples@[j]).0@,
                            ) matches Some(v) && lit_answers(
                                v,
                                examples@[j].1@,
                                examples@[j].0@,
                            )) by {
                                assert(vsa_contains(*spaces[j], prog@));
                                assert(space_consistent(
                                    *spaces[j],
                                    examples@[j].0@,
                                    examples@[j].1@,
                                ));
                                assert(examples@[j].1@ == examples@[0].1@);
                                assert(examples@[j].1@ is Str);
                            }
                        }
                        assert(false);
                    }
                }
            },
            None => {
                proof {
                    if shared_string_output(examples@) {
                        assert(vsa_contains(*res, ASTV::Lit(examples@[0].1@)));
                        crate::vsa::lemma_contains_has_prog(
                            rc_v(&res),
                            ASTV::Lit(examples@[0].1@),
                        );
                        assert(false);
                    }
                }
            },
        }
        size = size + 1;
    }
    None
}

/// The driver under its historical name; the absent result is handed to
/// the caller rather than unwrapped.
pub fn top_down_vsa(examples: &[(Lit, Lit)]) -> (r: Option<AST>)
    requires
        examples@.len() >= 1,
        forall|j: int| 0 <= j < examples@.len() ==> (#[trigger] examples@[j]).0@ is Str,
    ensures
        r matches Some(p) ==> solves(p@, examples@),
        shared_string_output(examples@) ==> r is Some,
{
    top_down(examples)
}

/// Synthesizes a string-transformation program from input/output string
/// pairs: a returned program maps every example input to its example
/// output, and exceeding the search cap gives the explicit absent result.
pub fn synthesize(examples: &Vec<(String, String)>) -> (r: Option<AST>)
    ensures
        r matches Some(p) ==> forall|j: int|
            0 <= j < examples@.len() ==> eval_ast(
                p@,
                LitV::Str(encode_utf8((#[trigger] examples@[j]).0@)),
            ) == Some(LitV::Str(encode_utf8(examples@[j].1@))),
        (examples@.len() >= 1 && forall|j: int|
            0 <= j < examples@.len() ==> (#[trigger] examples@[j]).1@ == examples@[0].1@)
            ==> r is Some,
{
    if examples.len() == 0 {
        return None;
    }
    let mut lits: Vec<(Lit, Lit)> = Vec::new();
    let mut j: usize = 0;
    while j < examples.len()
        invariant
            j <= examples@.len(),
            lits@.len() == j,
            forall|k: int|
                0 <= k < j ==> (#[trigger] lits@[k]).0@ == LitV::Str(
                    encode_utf8(examples@[k].0@),
                ) && lits@[k].1@ == LitV::Str(encode_utf8(examples@[k].1@)),
        decreases examples@.len() - j,
    {
        let (i0, o0) = &examples[j];
        lits.push((Lit::StringConst(i0.clone()), Lit::StringConst(o0.clone())));
        j = j + 1;
    }
    let r = top_down(lits.as_slice());
    proof {
        if examples@.len() >= 1 && forall|j: int|
            0 <= j < examples@.len() ==> (#[trigger] examples@[j]).1@ == examples@[0].1@ {
            assert forall|j: int|
                0 <= j < lits@.len() implies (#[trigger] lits@[j]).1@ == lits@[0].1@ by {
                assert(examples@[j].1@ == examples@[0].1@);
            }
            assert(lits@[0].1@ is Str);
            assert(shared_string_output(lits@));
        }
        match &r {
            Some(p) => {
                assert forall|jj: int| 0 <= jj < examples@.len() implies eval_ast(
                    p@,
                    LitV::Str(encode_utf8((#[trigger] examples@[jj]).0@)),
                ) == Some(LitV::Str(encode_utf8(examples@[jj].1@))) by {
                    assert(eval_ast(p@, (lits@[jj]).0@) matches Some(v) && lit_answers(
                        v,
                        lits@[jj].1@,
                        lits@[jj].0@,
                    ));
                }
            },
            None => {},
        }
    }
    r
}


/// The summed values of the first `n` elements.
pub open spec fn sum_prefix(s: Seq<usize>, n: int) -> int
    decreases n,
{
    if 0 < n <= s.len() {
        sum_prefix(s, n - 1) + s[n - 1]
    } else {
        0
    }
}

/// The sum of a sequence of counts.
pub open spec fn seq_sum(s: Seq<usize>) -> int {
    sum_prefix(s, s.len() as int)
}

/// A sum of counts splits as its head plus the sum of its tail.
pub proof fn lemma_sum_head(s: Seq<usize>)
    requires
        s.len() >= 1,
    ensures
        seq_sum(s) == s[0] + seq_sum(s.drop_first()),
        seq_sum(s) >= s[0],
        seq_sum(s) >= 0,
    decreases s.len(),
{
    lemma_sum_prefix_drop(s, s.len() as int);
    lemma_sum_nonneg(s.drop_first(), s.len() - 1);
}

/// Prefix sums of the tail lag the whole by the head.
proof fn lemma_sum_prefix_drop(s: Seq<usize>, n: int)
    requires
        1 <= n <= s.len(),
    ensures
        sum_prefix(s, n) == s[0] + sum_prefix(s.drop_first(), n - 1),
    decreases n,
{
    if n == 1 {
        assert(sum_prefix(s, 1) == sum_prefix(s, 0) + s[0]);
        assert(sum_prefix(s.drop_first(), 0) == 0);
    } else {
        lemma_sum_prefix_drop(s, n - 1);
        assert(s.drop_first()[n - 2] == s[n - 1]);
        assert(sum_prefix(s.drop_first(), n - 1) == sum_prefix(s.drop_first(), n - 2)
            + s.drop_first()[n - 2]);
    }
}

/// Sums of counts are never negative.
proof fn lemma_sum_nonneg(s: Seq<usize>, n: int)
    ensures
        sum_prefix(s, n) >= 0,
    decreases n,
{
    if 0 < n <= s.len() {
        lemma_sum_nonneg(s, n - 1);
    }
}

/// Every way of writing `target` as an ordered sum of `n` counts: the
/// result holds exactly the length-`n` vectors summing to `target`, each
/// once.
#[verifier::loop_isolation(true)]
pub fn sum_permutations(n: usize, target: usize) -> (r: Vec<Vec<usize>>)
    ensures
        forall|i: int|
            0 <= i < r@.len() ==> (#[trigger] r@[i])@.len() == n && seq_sum(r@[i]@) == target,
        forall|v: Seq<usize>|
            v.len() == n && #[trigger] seq_sum(v) == target ==> exists|i: int|
                0 <= i < r@.len() && (#[trigger] r@[i])@ == v,
        forall|i: int, j: int|
            0 <= i < j < r@.len() ==> (#[trigger] r@[i])@ != (#[trigger] r@[j])@,
    decreases n,
{
    let mut r: Vec<Vec<usize>> = Vec::new();
    if n == 0 {
        if target == 0 {
            r.push(Vec::new());
        }
        proof {
            assert forall|v: Seq<usize>|
                v.len() == n && #[trigger] seq_sum(v) == target implies exists|i: int|
                0 <= i < r@.len() && (#[trigger] r@[i])@ == v by {
                assert(v =~= Seq::<usize>::empty());
                assert(r@[0]@ =~= Seq::<usize>::empty());
            }
        }
        return r;
    }
    let mut first: usize = 0;
    loop
        invariant_except_break
            forall|i: int| 0 <= i < r@.len() ==> (#[trigger] r@[i])@[0] < first,
        invariant
            n >= 1,
            first <= target,
            forall|i: int|
                0 <= i < r@.len() ==> (#[trigger] r@[i])@.len() == n && seq_sum(r@[i]@)
                    == target,
            forall|v: Seq<usize>|
                v.len() == n && #[trigger] seq_sum(v) == target && v[0] < first ==> exists|
                    i: int,
                |
                    0 <= i < r@.len() && (#[trigger] r@[i])@ == v,
            forall|i: int, j: int|
                0 <= i < j < r@.len() ==> (#[trigger] r@[i])@ != (#[trigger] r@[j])@,
        ensures
            forall|v: Seq<usize>|
                v.len() == n && #[trigger] seq_sum(v) == target ==> exists|i: int|
                    0 <= i < r@.len() && (#[trigger] r@[i])@ == v,
        decreases target - first,
    {
        let rest = sum_permutations(n - 1, target - first);
        let ghost base = r@.len();
        let mut k: usize = 0;
        while k < rest.len()
            invariant
                n >= 1,
                first <= target,
                k <= rest@.len(),
                base <= r@.len(),
                r@.len() == base + k,
                forall|kk: int|
                    0 <= kk < rest@.len() ==> (#[trigger] rest@[kk])@.len() == n - 1 && seq_sum(
                        rest@[kk]@,
                    ) == target - first,
                forall|v: Seq<usize>|
                    v.len() == n - 1 && #[trigger] seq_sum(v) == target - first ==> exists|
                        kk: int,
                    |
                        0 <= kk < rest@.len() && (#[trigger] rest@[kk])@ == v,
                forall|k1: int, k2: int|
                    0 <= k1 < k2 < rest@.len() ==> (#[trigger] rest@[k1])@ != (
                    #[trigger] rest@[k2])@,
                forall|i: int|
                    0 <= i < r@.len() ==> (#[trigger] r@[i])@.len() == n && seq_sum(r@[i]@)
                        == target,
                forall|v: Seq<usize>|
                    v.len() == n && #[trigger] seq_sum(v) == target && v[0] < first ==> exists|
                        i: int,
                    |
                        0 <= i < r@.len() && (#[trigger] r@[i])@ == v,
                forall|kk: int|
                    0 <= kk < k ==> exists|i: int|
                        0 <= i < r@.len() && (#[trigger] r@[i])@ == seq![first].add(
                            (#[trigger] rest@[kk])@,
                        ),
                forall|i: int| 0 <= i < base ==> (#[trigger] r@[i])@[0] < first,
                forall|i: int|
                    base <= i < r@.len() ==> (#[trigger] r@[i])@ == seq![first].add(
                        rest@[i - base]@,
                    ),
                forall|i: int, j: int|
                    0 <= i < j < r@.len() ==> (#[trigger] r@[i])@ != (#[trigger] r@[j])@,
            decreases rest.len() - k,
        {
            let mut item: Vec<usize> = Vec::new();
            item.push(first);
            let tail = &rest[k];
            let mut j: usize = 0;
            while j < tail.len()
                invariant
                    k < rest@.len(),
                    tail == rest@[k as int],
                    j <= tail@.len(),
                    item@ == seq![first] + tail@.subrange(0, j as int),
                decreases tail@.len() - j,
            {
                item.push(tail[j]);
                proof {
                    assert(item@ =~= seq![first] + tail@.subrange(0, j + 1));
                }
                j = j + 1;
            }
            proof {
                assert(item@ =~= seq![first] + rest@[k as int]@);
                assert(item@.drop_first() =~= rest@[k as int]@);
                lemma_sum_head(item@);
            }
            let ghost r_pre = r@;
            let ghost old_k = k as int;
            r.push(item);
            k = k + 1;
            proof {
                assert(r@ == r_pre.push(item));
                assert((r@[r@.len() - 1])@ == seq![first].add(rest@[old_k]@));
                assert forall|v: Seq<usize>|
                    v.len() == n && #[trigger] seq_sum(v) == target && v[0] < first implies exists|
                    i: int,
                |
                    0 <= i < r@.len() && (#[trigger] r@[i])@ == v by {
                    let i0 = choose|i: int|
                        0 <= i < r_pre.len() && (#[trigger] r_pre[i])@ == v;
                    assert(r@[i0] == r_pre[i0]);
                }
                assert forall|kk: int| 0 <= kk < k implies exists|i: int|
                    0 <= i < r@.len() && (#[trigger] r@[i])@ == seq![first].add(
                        (#[trigger] rest@[kk])@,
                    ) by {
                    if kk < old_k {
                        let i0 = choose|i: int|
                            0 <= i < r_pre.len() && (#[trigger] r_pre[i])@ == seq![first].add(
                                rest@[kk]@,
                            );
                        assert(r@[i0] == r_pre[i0]);
                    } else {
                        assert((r@[r@.len() - 1])@ == seq![first].add(rest@[kk]@));
                    }
                }
                assert forall|i: int, j: int|
                    0 <= i < j < r@.len() implies (#[trigger] r@[i])@ != (
                #[trigger] r@[j])@ by {
                    if j == r@.len() - 1 {
                        assert(r@[j]@ == seq![first].add(rest@[old_k]@));
                        assert(r@[j]@[0] == first);
                        if i < base {
                            assert(r@[i]@[0] < first);
                        } else {
                            assert(r@[i]@ == seq![first].add(rest@[i - base]@));
                            if r@[i]@ == r@[j]@ {
                                assert(r@[i]@.drop_first() =~= rest@[i - base]@);
                                assert(r@[j]@.drop_first() =~= rest@[old_k]@);
                                assert(rest@[i - base]@ == rest@[old_k]@);
                                assert(i - base < old_k);
                                assert(false);
                            }
                        }
                    } else {
                        assert(r@[i] == r_pre[i] && r@[j] == r_pre[j]);
                    }
                }
            }
        }
        proof {
            assert forall|v: Seq<usize>|
                v.len() == n && #[trigger] seq_sum(v) == target && v[0] < first + 1 implies exists|
                i: int,
            |
                0 <= i < r@.len() && (#[trigger] r@[i])@ == v by {
                if v[0] == first {
                    lemma_sum_head(v);
                    let tl = v.drop_first();
                    assert(tl.len() == n - 1 && seq_sum(tl) == target - first);
                    let kk = choose|kk: int|
                        0 <= kk < rest@.len() && (#[trigger] rest@[kk])@ == tl;
                    assert(exists|i: int|
                        0 <= i < r@.len() && (#[trigger] r@[i])@ == seq![first].add(
                            rest@[kk]@,
                        ));
                    let i0 = choose|i: int|
                        0 <= i < r@.len() && (#[trigger] r@[i])@ == seq![first].add(
                            rest@[kk]@,
                        );
                    assert(r@[i0]@ =~= v);
                }
            }
        }
        if first == target {
            proof {
                assert forall|v: Seq<usize>|
                    v.len() == n && #[trigger] seq_sum(v) == target implies exists|i: int|
                    0 <= i < r@.len() && (#[trigger] r@[i])@ == v by {
                    lemma_sum_head(v);
                    assert(v[0] <= target);
                }
            }
            break;
        }
        first = first + 1;
    }
    r
}

} // verus!
