//! Version space algebra: a compact representation of sets of programs,
//! with union, intersection, membership, and ranked extraction.
//!
//! Sub-spaces are reference-shared, so identical sub-goals are computed
//! once and referenced from many parents. A `Leaf` holds explicit
//! programs; a `Union` denotes the union of its members; a `Join` denotes
//! every application of its operator to one program from each child.

#![verifier::loop_isolation(false)]

use std::rc::Rc;

use vstd::prelude::*;

use crate::lang::{args_view, arity, ast_eq, ast_view, AST, ASTV, Fun};

verus! {

broadcast use vstd::std_specs::vec::group_vec_axioms, vstd::seq::group_seq_axioms;

/// A set of candidate programs, represented compactly.
pub enum VSA {
    Leaf(Vec<AST>),
    Union(Vec<Rc<VSA>>),
    Join { op: Fun, children: Vec<Rc<VSA>> },
}

/// The height of a version space, used as a termination measure for
/// operations that walk two spaces at once.
pub open spec fn vsa_height(v: VSA) -> nat
    decreases v, 0int,
{
    match v {
        VSA::Leaf(_) => 1,
        VSA::Union(cs) => 1 + vsa_height_n(cs, cs.len() as int),
        VSA::Join { children, .. } => 1 + vsa_height_n(children, children.len() as int),
    }
}

/// The summed heights of the first `n` members of a vector of spaces.
pub open spec fn vsa_height_n(cs: Vec<Rc<VSA>>, n: int) -> nat
    decreases cs, n,
{
    if 0 < n <= cs.len() {
        proof {
            broadcast use vstd::std_specs::vec::axiom_vec_index_decreases;

            assert(decreases_to!(cs => cs[n - 1]));
        }
        vsa_height_n(cs, n - 1) + vsa_height(*cs[n - 1])
    } else {
        0
    }
}

/// Each member's height is below the height of the space holding it.
pub proof fn lemma_height_member(cs: Vec<Rc<VSA>>, n: int, i: int)
    requires
        0 <= i < n <= cs.len(),
    ensures
        vsa_height(*cs[i]) <= vsa_height_n(cs, n),
    decreases n,
{
    if i < n - 1 {
        lemma_height_member(cs, n - 1, i);
    }
}

/// Whether the program `p` belongs to the set that `v` denotes.
pub open spec fn vsa_contains(v: VSA, p: ASTV) -> bool
    decreases v, 1int,
{
    match v {
        VSA::Leaf(ps) => args_view(ps).contains(p),
        VSA::Union(cs) => union_contains(cs, p),
        VSA::Join { op, children } => p matches ASTV::App { fun, args } && fun == op
            && args.len() == children.len() && join_args_contained(children, args),
    }
}

/// Whether some member of a union contains `p`.
pub open spec fn union_contains(cs: Vec<Rc<VSA>>, p: ASTV) -> bool
    decreases cs, 0int,
{
    exists|i: int| 0 <= i < cs.len() && vsa_contains(*#[trigger] cs[i], p)
}

/// Whether each argument is contained in the corresponding child.
pub open spec fn join_args_contained(children: Vec<Rc<VSA>>, args: Seq<ASTV>) -> bool
    decreases children, 0int,
{
    forall|i: int|
        0 <= i < children.len() ==> vsa_contains(*#[trigger] children[i], args[i])
}

/// Structural well-formedness: every join has exactly as many children
/// as its operator has arguments.
pub open spec fn wf_vsa(v: VSA) -> bool
    decreases v, 1int,
{
    match v {
        VSA::Leaf(_) => true,
        VSA::Union(cs) => wf_members(cs),
        VSA::Join { op, children } => children.len() == arity(op) && wf_members(children),
    }
}

/// Whether every member of a vector of spaces is well-formed.
pub open spec fn wf_members(cs: Vec<Rc<VSA>>) -> bool
    decreases cs, 0int,
{
    forall|i: int| 0 <= i < cs.len() ==> wf_vsa(*#[trigger] cs[i])
}

/// Whether the set that `v` denotes is inhabited.
pub open spec fn vsa_has_prog(v: VSA) -> bool
    decreases v, 1int,
{
    match v {
        VSA::Leaf(ps) => ps.len() > 0,
        VSA::Union(cs) => union_has_prog(cs),
        VSA::Join { children, .. } => join_has_prog(children),
    }
}

/// Whether some member of a union is inhabited.
pub open spec fn union_has_prog(cs: Vec<Rc<VSA>>) -> bool
    decreases cs, 0int,
{
    exists|i: int| 0 <= i < cs.len() && vsa_has_prog(*#[trigger] cs[i])
}

/// Whether every child of a join is inhabited.
pub open spec fn join_has_prog(children: Vec<Rc<VSA>>) -> bool
    decreases children, 0int,
{
    forall|i: int| 0 <= i < children.len() ==> vsa_has_prog(*#[trigger] children[i])
}

/// Whether a space holds no join node at all: only explicit leaves and
/// unions of them.
pub open spec fn join_free(v: VSA) -> bool
    decreases v, 1int,
{
    match v {
        VSA::Leaf(_) => true,
        VSA::Union(cs) => members_join_free(cs),
        VSA::Join { .. } => false,
    }
}

/// Whether every member of a vector of spaces is join-free.
pub open spec fn members_join_free(cs: Vec<Rc<VSA>>) -> bool
    decreases cs, 0int,
{
    forall|i: int| 0 <= i < cs.len() ==> join_free(*#[trigger] cs[i])
}

/// Membership in a union, from membership in one member.
pub proof fn lemma_union_intro(cs: Vec<Rc<VSA>>, i: int, p: ASTV)
    requires
        0 <= i < cs.len(),
        vsa_contains(*cs[i], p),
    ensures
        vsa_contains(VSA::Union(cs), p),
{
    assert(union_contains(cs, p));
}

/// Inhabitation of a union, from inhabitation of one member.
pub proof fn lemma_union_has_intro(cs: Vec<Rc<VSA>>, i: int)
    requires
        0 <= i < cs.len(),
        vsa_has_prog(*cs[i]),
    ensures
        vsa_has_prog(VSA::Union(cs)),
{
    assert(union_has_prog(cs));
}

/// A space that contains a program is inhabited.
pub proof fn lemma_contains_has_prog(v: VSA, p: ASTV)
    requires
        vsa_contains(v, p),
    ensures
        vsa_has_prog(v),
    decreases v, 2int,
{
    match v {
        VSA::Leaf(ps) => {
        },
        VSA::Union(cs) => {
            broadcast use vstd::std_specs::vec::axiom_vec_index_decreases;

            let i = choose|i: int| 0 <= i < cs.len() && vsa_contains(*#[trigger] cs[i], p);
            assert(decreases_to!(cs => cs[i]));
            lemma_contains_has_prog(rc_v(&cs[i]), p);
            assert(union_has_prog(cs));
        },
        VSA::Join { op, children } => {
            let args = p->App_args;
            assert(join_args_contained(children, args));
            broadcast use vstd::std_specs::vec::axiom_vec_index_decreases;

            assert forall|i: int|
                0 <= i < children.len() implies vsa_has_prog(*#[trigger] children[i]) by {
                assert(vsa_contains(*children[i], args[i]));
                assert(decreases_to!(children => children[i]));
                lemma_contains_has_prog(rc_v(&children[i]), args[i]);
            }
            assert(join_has_prog(children));
        },
    }
}

/// The space a shared reference points at.
pub open spec fn rc_v(r: &Rc<VSA>) -> VSA {
    **r
}

/// Relies on `std::rc::Rc::clone`: another reference to the same value.
#[verifier::external_body]
pub(crate) fn rc_dup(v: &Rc<VSA>) -> (r: Rc<VSA>)
    ensures
        r == *v,
{
    v.clone()
}

impl VSA {
    /// The empty set of programs.
    pub fn empty() -> (r: VSA)
        ensures
            wf_vsa(r),
            !vsa_has_prog(r),
            forall|p: ASTV| !vsa_contains(r, p),
    {
        let ps: Vec<AST> = Vec::new();
        let r = VSA::Leaf(ps);
        proof {
            assert forall|p: ASTV| !vsa_contains(r, p) by {
                assert(args_view(ps).len() == 0);
            }
        }
        r
    }

    /// The set holding exactly the given program.
    pub fn singleton(ast: AST) -> (r: VSA)
        ensures
            wf_vsa(r),
            vsa_has_prog(r),
            forall|p: ASTV| vsa_contains(r, p) <==> p == ast@,
    {
        let ghost a = ast@;
        let mut ps: Vec<AST> = Vec::new();
        ps.push(ast);
        let r = VSA::Leaf(ps);
        proof {
            crate::lang::lemma_args_view(ps, 1);
            assert forall|p: ASTV| vsa_contains(r, p) <==> p == a by {
                assert(args_view(ps)[0] == a);
                if p == a {
                    assert(args_view(ps).contains(p));
                }
                if vsa_contains(r, p) {
                    let i = choose|i: int|
                        0 <= i < args_view(ps).len() && args_view(ps)[i] == p;
                    assert(i == 0);
                }
            }
        }
        r
    }

    /// The union of two spaces, flattening a union met on either side so
    /// that representation depth stays bounded.
    pub fn unify(left: Rc<VSA>, right: Rc<VSA>) -> (r: VSA)
        ensures
            forall|p: ASTV|
                #[trigger] vsa_contains(r, p) <==> (vsa_contains(*left, p) || vsa_contains(
                    *right,
                    p,
                )),
            wf_vsa(*left) && wf_vsa(*right) ==> wf_vsa(r),
            vsa_has_prog(r) <==> (vsa_has_prog(*left) || vsa_has_prog(*right)),
    {
        match (&*left, &*right) {
            (VSA::Leaf(a), VSA::Leaf(b)) => {
                let mut ps: Vec<AST> = Vec::new();
                let mut i: usize = 0;
                while i < a.len()
                    invariant
                        i <= a.len(),
                        ps.len() == i,
                        forall|j: int| 0 <= j < i ==> ast_view(ps[j]) == ast_view(a[j]),
                    decreases a.len() - i,
                {
                    ps.push(a[i].dup());
                    i = i + 1;
                }
                let mut k: usize = 0;
                while k < b.len()
                    invariant
                        k <= b.len(),
                        ps.len() == a.len() + k,
                        forall|j: int| 0 <= j < a.len() ==> ast_view(ps[j]) == ast_view(a[j]),
                        forall|j: int|
                            0 <= j < k ==> ast_view(ps[a.len() + j]) == ast_view(b[j]),
                    decreases b.len() - k,
                {
                    ps.push(b[k].dup());
                    k = k + 1;
                }
                let r = VSA::Leaf(ps);
                proof {
                    crate::lang::lemma_args_view(ps, ps.len() as int);
                    crate::lang::lemma_args_view(*a, a.len() as int);
                    crate::lang::lemma_args_view(*b, b.len() as int);
                    assert forall|p: ASTV|
                        #[trigger] vsa_contains(r, p) <==> (vsa_contains(*left, p)
                            || vsa_contains(*right, p)) by {
                        if vsa_contains(r, p) {
                            let i0 = choose|i0: int|
                                0 <= i0 < args_view(ps).len() && args_view(ps)[i0] == p;
                            if i0 < a.len() {
                                assert(args_view(*a)[i0] == p);
                                assert(args_view(*a).contains(p));
                            } else {
                                assert(args_view(*b)[i0 - a.len()] == p);
                                assert(args_view(*b).contains(p));
                            }
                        }
                        if vsa_contains(*left, p) {
                            let i0 = choose|i0: int|
                                0 <= i0 < args_view(*a).len() && args_view(*a)[i0] == p;
                            assert(args_view(ps)[i0] == p);
                            assert(args_view(ps).contains(p));
                        }
                        if vsa_contains(*right, p) {
                            let i0 = choose|i0: int|
                                0 <= i0 < args_view(*b).len() && args_view(*b)[i0] == p;
                            assert(args_view(ps)[a.len() + i0] == p);
                            assert(args_view(ps).contains(p));
                        }
                    }
                }
                r
            },
            (VSA::Union(u), _) => {
                let mut cs: Vec<Rc<VSA>> = Vec::new();
                let mut i: usize = 0;
                while i < u.len()
                    invariant
                        i <= u.len(),
                        cs.len() == i,
                        forall|j: int| 0 <= j < i ==> cs[j] == u[j],
                    decreases u.len() - i,
                {
                    let c = rc_dup(&u[i]);
                    cs.push(c);
                    i = i + 1;
                }
                cs.push(rc_dup(&right));
                let r = VSA::Union(cs);
                proof {
                    assert forall|p: ASTV|
                        #[trigger] vsa_contains(r, p) <==> (vsa_contains(*left, p)
                            || vsa_contains(*right, p)) by {
                        if vsa_contains(r, p) {
                            let i0 = choose|i0: int|
                                0 <= i0 < cs.len() && vsa_contains(#[trigger] *cs[i0], p);
                            if i0 < u.len() {
                                assert(vsa_contains(*u[i0], p));
                            }
                        }
                        if vsa_contains(*left, p) {
                            let i0 = choose|i0: int|
                                0 <= i0 < u.len() && vsa_contains(#[trigger] *u[i0], p);
                            assert(vsa_contains(*cs[i0], p));
                        }
                        if vsa_contains(*right, p) {
                            assert(vsa_contains(*cs[cs.len() - 1], p));
                        }
                    }
                    assert(vsa_has_prog(r) <==> (vsa_has_prog(*left) || vsa_has_prog(*right)))
                        by {
                        if vsa_has_prog(r) {
                            let i0 = choose|i0: int|
                                0 <= i0 < cs.len() && vsa_has_prog(#[trigger] *cs[i0]);
                            if i0 < u.len() {
                                assert(vsa_has_prog(*u[i0]));
                            }
                        }
                        if vsa_has_prog(*left) {
                            let i0 = choose|i0: int|
                                0 <= i0 < u.len() && vsa_has_prog(#[trigger] *u[i0]);
                            assert(vsa_has_prog(*cs[i0]));
                        }
                        if vsa_has_prog(*right) {
                            assert(vsa_has_prog(*cs[cs.len() - 1]));
                        }
                    }
                }
                r
            },
            (_, VSA::Union(u)) => {
                let mut cs: Vec<Rc<VSA>> = Vec::new();
                let mut i: usize = 0;
                while i < u.len()
                    invariant
                        i <= u.len(),
                        cs.len() == i,
                        forall|j: int| 0 <= j < i ==> cs[j] == u[j],
                    decreases u.len() - i,
                {
                    let c = rc_dup(&u[i]);
                    cs.push(c);
                    i = i + 1;
                }
                cs.push(rc_dup(&left));
                let r = VSA::Union(cs);
                proof {
                    assert forall|p: ASTV|
                        #[trigger] vsa_contains(r, p) <==> (vsa_contains(*left, p)
                            || vsa_contains(*right, p)) by {
                        if vsa_contains(r, p) {
                            let i0 = choose|i0: int|
                                0 <= i0 < cs.len() && vsa_contains(#[trigger] *cs[i0], p);
                            if i0 < u.len() {
                                assert(vsa_contains(*u[i0], p));
                            }
                        }
                        if vsa_contains(*right, p) {
                            let i0 = choose|i0: int|
                                0 <= i0 < u.len() && vsa_contains(#[trigger] *u[i0], p);
                            assert(vsa_contains(*cs[i0], p));
                        }
                        if vsa_contains(*left, p) {
                            assert(vsa_contains(*cs[cs.len() - 1], p));
                        }
                    }
                    assert(vsa_has_prog(r) <==> (vsa_has_prog(*left) || vsa_has_prog(*right)))
                        by {
                        if vsa_has_prog(r) {
                            let i0 = choose|i0: int|
                                0 <= i0 < cs.len() && vsa_has_prog(#[trigger] *cs[i0]);
                            if i0 < u.len() {
                                assert(vsa_has_prog(*u[i0]));
                            }
                        }
                        if vsa_has_prog(*right) {
                            let i0 = choose|i0: int|
                                0 <= i0 < u.len() && vsa_has_prog(#[trigger] *u[i0]);
                            assert(vsa_has_prog(*cs[i0]));
                        }
                        if vsa_has_prog(*left) {
                            assert(vsa_has_prog(*cs[cs.len() - 1]));
                        }
                    }
                }
                r
            },
            _ => {
                let mut cs: Vec<Rc<VSA>> = Vec::new();
                cs.push(left);
                cs.push(right);
                let r = VSA::Union(cs);
                proof {
                    assert forall|p: ASTV|
                        #[trigger] vsa_contains(r, p) <==> (vsa_contains(*cs[0], p)
                            || vsa_contains(*cs[1], p)) by {
                        if vsa_contains(*cs[0], p) || vsa_contains(*cs[1], p) {
                            assert(vsa_contains(r, p));
                        }
                    }
                    assert(vsa_has_prog(r) <==> (vsa_has_prog(*cs[0]) || vsa_has_prog(*cs[1])))
                        by {
                        if vsa_has_prog(*cs[0]) || vsa_has_prog(*cs[1]) {
                            assert(vsa_has_prog(r));
                        }
                    }
                }
                r
            },
        }
    }
}


impl VSA {
    /// Whether `program` is in the set this space denotes.
    pub fn contains(&self, program: &AST) -> (r: bool)
        ensures
            r == vsa_contains(*self, program@),
        decreases *self,
    {
        match self {
            VSA::Leaf(ps) => {
                proof {
                    crate::lang::lemma_args_view(*ps, ps.len() as int);
                }
                let mut i: usize = 0;
                while i < ps.len()
                    invariant
                        i <= ps.len(),
                        forall|j: int| 0 <= j < i ==> ast_view(ps[j]) != program@,
                    decreases ps.len() - i,
                {
                    if ast_eq(&ps[i], program) {
                        proof {
                            assert(args_view(*ps)[i as int] == program@);
                            assert(args_view(*ps).contains(program@));
                        }
                        return true;
                    }
                    i = i + 1;
                }
                proof {
                    if vsa_contains(*self, program@) {
                        let j = choose|j: int|
                            0 <= j < args_view(*ps).len() && args_view(*ps)[j] == program@;
                        assert(ast_view(ps[j]) == program@);
                    }
                }
                false
            },
            VSA::Union(cs) => {
                let mut i: usize = 0;
                while i < cs.len()
                    invariant
                        i <= cs.len(),
                        forall|j: int| 0 <= j < i ==> !vsa_contains(*#[trigger] cs[j], program@),
                    decreases cs.len() - i,
                {
                    proof {
                        broadcast use vstd::std_specs::vec::axiom_vec_index_decreases;

                        assert(*self == VSA::Union(*cs));
                        assert(decreases_to!(*cs => cs[i as int]));
                    }
                    if cs[i].contains(program) {
                        proof {
                            lemma_union_intro(*cs, i as int, program@);
                        }
                        return true;
                    }
                    i = i + 1;
                }
                proof {
                    if union_contains(*cs, program@) {
                        let j = choose|j: int|
                            0 <= j < cs.len() && vsa_contains(*#[trigger] cs[j], program@);
                    }
                }
                false
            },
            VSA::Join { op, children } => {
                match program {
                    AST::App { fun, args } => {
                        proof {
                            crate::lang::lemma_ast_view_app(*fun, *args);
                            assert(*program == AST::App { fun: *fun, args: *args });
                        }
                        if !(*fun == *op && args.len() == children.len()) {
                            return false;
                        }
                        let ghost pargs = program@->App_args;
                        let mut i: usize = 0;
                        while i < children.len()
                            invariant
                                i <= children.len(),
                                forall|j: int|
                                    0 <= j < i ==> vsa_contains(
                                        *#[trigger] children[j],
                                        pargs[j],
                                    ),
                            decreases children.len() - i,
                        {
                            proof {
                                broadcast use vstd::std_specs::vec::axiom_vec_index_decreases;

                                assert(*self == VSA::Join { op: *op, children: *children });
                                assert(decreases_to!(*children => children[i as int]));
                            }
                            if !children[i].contains(&args[i]) {
                                proof {
                                    assert(pargs[i as int] == ast_view(args[i as int]));
                                    assert(!join_args_contained(*children, pargs));
                                }
                                return false;
                            }
                            i = i + 1;
                        }
                        proof {
                            assert(join_args_contained(*children, pargs));
                        }
                        true
                    },
                    AST::Lit(_) => {
                        proof {
                            assert(!(program@ is App));
                        }
                        false
                    },
                }
            },
        }
    }

    /// The structural intersection of two spaces: the result holds no
    /// program absent from either side (it may, in the join-against-leaf
    /// case, omit programs present in both, a documented economy).
    pub fn intersect(&self, other: &VSA) -> (r: VSA)
        requires
            wf_vsa(*self),
            wf_vsa(*other),
        ensures
            wf_vsa(r),
            forall|p: ASTV|
                #[trigger] vsa_contains(r, p) ==> vsa_contains(*self, p) && vsa_contains(
                    *other,
                    p,
                ),
            join_free(*self) && join_free(*other) ==> forall|p: ASTV|
                vsa_contains(*self, p) && #[trigger] vsa_contains(*other, p) ==> vsa_contains(
                    r,
                    p,
                ),
            forall|p: ASTV|
                p is Lit && vsa_contains(*self, p) && #[trigger] vsa_contains(*other, p)
                    ==> vsa_contains(r, p),
        decreases vsa_height(*self) + vsa_height(*other),
    {
        match (self, other) {
            (VSA::Union(u), _) => {
                let mut cs: Vec<Rc<VSA>> = Vec::new();
                let mut i: usize = 0;
                while i < u.len()
                    invariant
                        i <= u.len(),
                        cs.len() == i,
                        wf_members(cs),
                        forall|j: int, p: ASTV|
                            0 <= j < i && #[trigger] vsa_contains(*cs[j], p) ==> vsa_contains(
                                *u[j],
                                p,
                            ) && vsa_contains(*other, p),
                        forall|j: int, p: ASTV|
                            0 <= j < i && join_free(*u[j]) && join_free(*other) && vsa_contains(
                                *u[j],
                                p,
                            ) && #[trigger] vsa_contains(*other, p) ==> vsa_contains(
                                *#[trigger] cs[j],
                                p,
                            ),
                        forall|j: int, p: ASTV|
                            0 <= j < i && p is Lit && vsa_contains(*u[j], p)
                                && #[trigger] vsa_contains(*other, p) ==> vsa_contains(
                                *#[trigger] cs[j],
                                p,
                            ),
                    decreases u.len() - i,
                {
                    proof {
                        lemma_height_member(*u, u.len() as int, i as int);
                    }
                    let m = u[i].intersect(other);
                    let ghost mm = m;
                    cs.push(Rc::new(m));
                    proof {
                        assert(*cs[i as int] == mm);
                        assert(wf_members(cs));
                        if join_free(*self) {
                            assert(join_free(*u[i as int]));
                        }
                    }
                    i = i + 1;
                }
                let r = VSA::Union(cs);
                proof {
                    assert forall|p: ASTV| #[trigger]
                        vsa_contains(r, p) implies vsa_contains(*self, p) && vsa_contains(
                        *other,
                        p,
                    ) by {
                        let j = choose|j: int|
                            0 <= j < cs.len() && vsa_contains(*#[trigger] cs[j], p);
                        assert(vsa_contains(*u[j], p));
                        lemma_union_intro(*u, j, p);
                    }
                    if join_free(*self) && join_free(*other) {
                        assert forall|p: ASTV|
                            vsa_contains(*self, p) && #[trigger] vsa_contains(*other, p)
                            implies vsa_contains(r, p) by {
                            let j = choose|j: int|
                                0 <= j < u.len() && vsa_contains(*#[trigger] u[j], p);
                            assert(join_free(*u[j]));
                            assert(vsa_contains(*cs[j], p));
                            lemma_union_intro(cs, j, p);
                        }
                    }
                    assert forall|p: ASTV|
                        p is Lit && vsa_contains(*self, p) && #[trigger] vsa_contains(
                        *other,
                        p,
                    ) implies vsa_contains(r, p) by {
                        let j = choose|j: int|
                            0 <= j < u.len() && vsa_contains(*#[trigger] u[j], p);
                        assert(vsa_contains(*cs[j], p));
                        lemma_union_intro(cs, j, p);
                    }
                }
                r
            },
            (_, VSA::Union(u)) => {
                let mut cs: Vec<Rc<VSA>> = Vec::new();
                let mut i: usize = 0;
                while i < u.len()
                    invariant
                        i <= u.len(),
                        cs.len() == i,
                        wf_members(cs),
                        forall|j: int, p: ASTV|
                            0 <= j < i && #[trigger] vsa_contains(*cs[j], p) ==> vsa_contains(
                                *u[j],
                                p,
                            ) && vsa_contains(*self, p),
                        forall|j: int, p: ASTV|
                            0 <= j < i && join_free(*u[j]) && join_free(*self) && vsa_contains(
                                *u[j],
                                p,
                            ) && #[trigger] vsa_contains(*self, p) ==> vsa_contains(
                                *#[trigger] cs[j],
                                p,
                            ),
                        forall|j: int, p: ASTV|
                            0 <= j < i && p is Lit && vsa_contains(*u[j], p)
                                && #[trigger] vsa_contains(*self, p) ==> vsa_contains(
                                *#[trigger] cs[j],
                                p,
                            ),
                    decreases u.len() - i,
                {
                    proof {
                        lemma_height_member(*u, u.len() as int, i as int);
                    }
                    let m = u[i].intersect(self);
                    let ghost mm = m;
                    cs.push(Rc::new(m));
                    proof {
                        assert(*cs[i as int] == mm);
                        assert(wf_members(cs));
                        if join_free(*other) {
                            assert(join_free(*u[i as int]));
                        }
                    }
                    i = i + 1;
                }
                let r = VSA::Union(cs);
                proof {
                    assert forall|p: ASTV| #[trigger]
                        vsa_contains(r, p) implies vsa_contains(*self, p) && vsa_contains(
                        *other,
                        p,
                    ) by {
                        let j = choose|j: int|
                            0 <= j < cs.len() && vsa_contains(*#[trigger] cs[j], p);
                        assert(vsa_contains(*u[j], p));
                        lemma_union_intro(*u, j, p);
                    }
                    if join_free(*self) && join_free(*other) {
                        assert forall|p: ASTV|
                            vsa_contains(*self, p) && #[trigger] vsa_contains(*other, p)
                            implies vsa_contains(r, p) by {
                            let j = choose|j: int|
                                0 <= j < u.len() && vsa_contains(*#[trigger] u[j], p);
                            assert(join_free(*u[j]));
                            assert(vsa_contains(*cs[j], p));
                            lemma_union_intro(cs, j, p);
                        }
                    }
                    assert forall|p: ASTV|
                        p is Lit && vsa_contains(*self, p) && #[trigger] vsa_contains(
                        *other,
                        p,
                    ) implies vsa_contains(r, p) by {
                        let j = choose|j: int|
                            0 <= j < u.len() && vsa_contains(*#[trigger] u[j], p);
                        assert(vsa_contains(*cs[j], p));
                        lemma_union_intro(cs, j, p);
                    }
                }
                r
            },
            (VSA::Join { op: lop, children: lcs }, VSA::Join { op: rop, children: rcs }) => {
                if !(*lop == *rop) {
                    proof {
                        assert(!join_free(*self));
                        assert(forall|p: ASTV| p is Lit ==> !vsa_contains(*self, p));
                    }
                    VSA::empty()
                } else {
                    let mut cs: Vec<Rc<VSA>> = Vec::new();
                    let mut i: usize = 0;
                    while i < lcs.len()
                        invariant
                            i <= lcs.len(),
                            cs.len() == i,
                            lcs.len() == rcs.len(),
                            wf_members(cs),
                            forall|j: int, p: ASTV|
                                0 <= j < i && #[trigger] vsa_contains(*cs[j], p)
                                    ==> vsa_contains(*lcs[j], p) && vsa_contains(*rcs[j], p),
                        decreases lcs.len() - i,
                    {
                        proof {
                            lemma_height_member(*lcs, lcs.len() as int, i as int);
                            lemma_height_member(*rcs, rcs.len() as int, i as int);
                        }
                        let m = lcs[i].intersect(&rcs[i]);
                        let ghost mm = m;
                        cs.push(Rc::new(m));
                        proof {
                            assert(*cs[i as int] == mm);
                            assert(wf_members(cs));
                        }
                        i = i + 1;
                    }
                    let r = VSA::Join { op: *lop, children: cs };
                    proof {
                        assert forall|p: ASTV| #[trigger]
                            vsa_contains(r, p) implies vsa_contains(*self, p) && vsa_contains(
                            *other,
                            p,
                        ) by {
                            let pargs = p->App_args;
                            assert(p matches ASTV::App { fun: f2, args: a2 } && f2 == *lop
                                && a2.len() == cs.len());
                            assert(join_args_contained(cs, pargs));
                            assert forall|j: int| 0 <= j < lcs.len() implies vsa_contains(
                                *#[trigger] lcs[j],
                                pargs[j],
                            ) by {
                                assert(vsa_contains(*cs[j], pargs[j]));
                            }
                            assert forall|j: int| 0 <= j < rcs.len() implies vsa_contains(
                                *#[trigger] rcs[j],
                                pargs[j],
                            ) by {
                                assert(vsa_contains(*cs[j], pargs[j]));
                            }
                            assert(join_args_contained(*lcs, pargs));
                            assert(join_args_contained(*rcs, pargs));
                            assert(vsa_contains(*self, p));
                            assert(vsa_contains(*other, p));
                        }
                        assert(!join_free(*self));
                        assert(forall|p: ASTV| p is Lit ==> !vsa_contains(*self, p));
                    }
                    r
                }
            },
            (VSA::Join { op, children }, VSA::Leaf(ps)) => {
                let r = filter_by_join(ps, op, children);
                proof {
                    assert forall|p: ASTV| #[trigger]
                        vsa_contains(r, p) implies vsa_contains(*self, p) && vsa_contains(
                        *other,
                        p,
                    ) by {}
                    assert(!join_free(*self));
                    assert(forall|p: ASTV| p is Lit ==> !vsa_contains(*self, p));
                }
                r
            },
            (VSA::Leaf(ps), VSA::Join { op, children }) => {
                let r = filter_by_join(ps, op, children);
                proof {
                    assert forall|p: ASTV| #[trigger]
                        vsa_contains(r, p) implies vsa_contains(*self, p) && vsa_contains(
                        *other,
                        p,
                    ) by {}
                    assert(!join_free(*other));
                    assert(forall|p: ASTV| p is Lit ==> !vsa_contains(*other, p));
                }
                r
            },
            (VSA::Leaf(a), VSA::Leaf(_)) => {
                proof {
                    crate::lang::lemma_args_view(*a, a.len() as int);
                }
                let mut kept: Vec<AST> = Vec::new();
                let mut i: usize = 0;
                while i < a.len()
                    invariant
                        i <= a.len(),
                        forall|j: int|
                            0 <= j < kept.len() ==> vsa_contains(
                                *self,
                                ast_view(#[trigger] kept[j]),
                            ) && vsa_contains(*other, ast_view(kept[j])),
                        forall|j: int|
                            0 <= j < i && vsa_contains(*other, ast_view(#[trigger] a[j]))
                                ==> exists|m: int|
                                0 <= m < kept.len() && ast_view(#[trigger] kept[m]) == ast_view(
                                    a[j],
                                ),
                    decreases a.len() - i,
                {
                    if other.contains(&a[i]) {
                        proof {
                            assert(args_view(*a)[i as int] == ast_view(a[i as int]));
                            assert(args_view(*a).contains(ast_view(a[i as int])));
                        }
                        let ghost kept_pre = kept@;
                        let d = a[i].dup();
                        kept.push(d);
                        proof {
                            assert(ast_view(kept[kept@.len() - 1]) == ast_view(a[i as int]));
                            assert forall|j: int|
                                0 <= j < i + 1 && vsa_contains(
                                    *other,
                                    ast_view(#[trigger] a[j]),
                                ) implies exists|m: int|
                                0 <= m < kept.len() && ast_view(#[trigger] kept[m]) == ast_view(
                                    a[j],
                                ) by {
                                if j < i {
                                    let m0 = choose|m: int|
                                        0 <= m < kept_pre.len() && ast_view(
                                            #[trigger] kept_pre[m],
                                        ) == ast_view(a[j]);
                                    assert(ast_view(kept[m0]) == ast_view(a[j]));
                                } else {
                                    assert(ast_view(kept[kept@.len() - 1]) == ast_view(a[j]));
                                }
                            }
                        }
                    }
                    i = i + 1;
                }
                let r = VSA::Leaf(kept);
                proof {
                    crate::lang::lemma_args_view(kept, kept.len() as int);
                    assert forall|p: ASTV| #[trigger]
                        vsa_contains(r, p) implies vsa_contains(*self, p) && vsa_contains(
                        *other,
                        p,
                    ) by {
                        let j = choose|j: int|
                            0 <= j < args_view(kept).len() && args_view(kept)[j] == p;
                        assert(ast_view(kept[j]) == p);
                    }
                    assert forall|p: ASTV|
                        vsa_contains(*self, p) && #[trigger] vsa_contains(*other, p)
                        implies vsa_contains(r, p) by {
                        let j = choose|j: int|
                            0 <= j < args_view(*a).len() && args_view(*a)[j] == p;
                        assert(ast_view(a[j]) == p);
                        let m0 = choose|m: int|
                            0 <= m < kept.len() && ast_view(#[trigger] kept[m]) == p;
                        assert(args_view(kept)[m0] == p);
                        assert(args_view(kept).contains(p));
                    }
                }
                r
            },
        }
    }
}

/// The programs of a leaf that are applications of `op` whose arguments
/// are each contained in the corresponding child: the cheaper membership
/// check used when a join meets a leaf.
fn filter_by_join(ps: &Vec<AST>, op: &Fun, children: &Vec<Rc<VSA>>) -> (r: VSA)
    ensures
        wf_vsa(r),
        forall|p: ASTV|
            #[trigger] vsa_contains(r, p) ==> vsa_contains(VSA::Leaf(*ps), p) && vsa_contains(
                VSA::Join { op: *op, children: *children },
                p,
            ),
{
    let ghost jn = VSA::Join { op: *op, children: *children };
    let mut kept: Vec<AST> = Vec::new();
    let mut i: usize = 0;
    while i < ps.len()
        invariant
            i <= ps.len(),
            forall|j: int|
                0 <= j < kept.len() ==> vsa_contains(
                    VSA::Leaf(*ps),
                    ast_view(#[trigger] kept[j]),
                ) && vsa_contains(jn, ast_view(kept[j])),
        decreases ps.len() - i,
    {
        let keep = match &ps[i] {
            AST::App { fun, args } => {
                proof {
                    crate::lang::lemma_ast_view_app(*fun, *args);
                    assert(ps[i as int] == AST::App { fun: *fun, args: *args });
                }
                if *fun == *op && args.len() == children.len() {
                    let ghost pargs = ast_view(ps[i as int])->App_args;
                    let mut k: usize = 0;
                    let mut all: bool = true;
                    while k < children.len()
                        invariant
                            k <= children.len(),
                            all ==> forall|j: int|
                                0 <= j < k ==> vsa_contains(*#[trigger] children[j], pargs[j]),
                        decreases children.len() - k,
                    {
                        if !children[k].contains(&args[k]) {
                            all = false;
                        }
                        proof {
                            assert(pargs[k as int] == ast_view(args[k as int]));
                        }
                        k = k + 1;
                    }
                    proof {
                        if all {
                            assert(join_args_contained(*children, pargs));
                            assert(vsa_contains(jn, ast_view(ps[i as int])));
                        }
                    }
                    all
                } else {
                    false
                }
            },
            AST::Lit(_) => false,
        };
        if keep {
            proof {
                crate::lang::lemma_args_view(*ps, ps.len() as int);
                assert(args_view(*ps)[i as int] == ast_view(ps[i as int]));
                assert(args_view(*ps).contains(ast_view(ps[i as int])));
            }
            let d = ps[i].dup();
            kept.push(d);
        }
        i = i + 1;
    }
    let r = VSA::Leaf(kept);
    proof {
        crate::lang::lemma_args_view(kept, kept.len() as int);
        assert forall|p: ASTV| #[trigger]
            vsa_contains(r, p) implies vsa_contains(VSA::Leaf(*ps), p) && vsa_contains(
            jn,
            p,
        ) by {
            let j = choose|j: int| 0 <= j < args_view(kept).len() && args_view(kept)[j] == p;
            assert(ast_view(kept[j]) == p);
        }
    }
    r
}


impl VSA {
    /// A program from the set, depth-first: the first leaf element, the
    /// first union branch that yields one, or one pick per join child.
    pub fn pick_one(&self) -> (r: Option<AST>)
        requires
            wf_vsa(*self),
        ensures
            r is Some <==> vsa_has_prog(*self),
            r matches Some(p) ==> vsa_contains(*self, p@),
        decreases *self,
    {
        match self {
            VSA::Leaf(ps) => {
                proof {
                    crate::lang::lemma_args_view(*ps, ps.len() as int);
                }
                if ps.len() > 0 {
                    let p = ps[0].dup();
                    proof {
                        assert(args_view(*ps)[0] == p@);
                        assert(args_view(*ps).contains(p@));
                    }
                    Some(p)
                } else {
                    None
                }
            },
            VSA::Union(cs) => {
                let mut i: usize = 0;
                while i < cs.len()
                    invariant
                        i <= cs.len(),
                        forall|j: int| 0 <= j < i ==> !vsa_has_prog(*#[trigger] cs[j]),
                    decreases cs.len() - i,
                {
                    proof {
                        broadcast use vstd::std_specs::vec::axiom_vec_index_decreases;

                        assert(*self == VSA::Union(*cs));
                        assert(decreases_to!(*cs => cs[i as int]));
                        assert(wf_vsa(*cs[i as int]));
                    }
                    let r0 = cs[i].pick_one();
                    match r0 {
                        Some(p) => {
                            proof {
                                lemma_union_intro(*cs, i as int, p@);
                                lemma_union_has_intro(*cs, i as int);
                            }
                            return Some(p);
                        },
                        None => {},
                    }
                    i = i + 1;
                }
                proof {
                    if union_has_prog(*cs) {
                        let j = choose|j: int|
                            0 <= j < cs.len() && vsa_has_prog(*#[trigger] cs[j]);
                    }
                }
                None
            },
            VSA::Join { op, children } => {
                let mut picks: Vec<AST> = Vec::new();
                let mut i: usize = 0;
                while i < children.len()
                    invariant
                        i <= children.len(),
                        picks.len() == i,
                        forall|j: int| 0 <= j < i ==> vsa_has_prog(*#[trigger] children[j]),
                        forall|j: int|
                            0 <= j < i ==> vsa_contains(
                                *#[trigger] children[j],
                                ast_view(picks[j]),
                            ),
                    decreases children.len() - i,
                {
                    proof {
                        broadcast use vstd::std_specs::vec::axiom_vec_index_decreases;

                        assert(*self == VSA::Join { op: *op, children: *children });
                        assert(decreases_to!(*children => children[i as int]));
                        assert(wf_vsa(*children[i as int]));
                    }
                    let r0 = children[i].pick_one();
                    match r0 {
                        Some(p) => {
                            picks.push(p);
                        },
                        None => {
                            proof {
                                assert(!join_has_prog(*children));
                            }
                            return None;
                        },
                    }
                    i = i + 1;
                }
                let r = AST::App { fun: *op, args: picks };
                proof {
                    crate::lang::lemma_ast_view_app(*op, picks);
                    let pargs = r@->App_args;
                    assert forall|j: int| 0 <= j < children.len() implies vsa_contains(
                        *#[trigger] children[j],
                        pargs[j],
                    ) by {
                        assert(pargs[j] == ast_view(picks[j]));
                    }
                    assert(join_args_contained(*children, pargs));
                    assert(join_has_prog(*children));
                }
                Some(r)
            },
        }
    }

    /// The cheapest program the space offers, chosen greedily: the
    /// minimum-cost element of a leaf, the cheapest branch pick of a
    /// union, and one best pick per join child (children's local optima
    /// need not compose into a global optimum, so minimality is promised
    /// only of join-free spaces).
    pub fn pick_best(&self) -> (r: Option<AST>)
        requires
            wf_vsa(*self),
        ensures
            r is Some <==> vsa_has_prog(*self),
            r matches Some(p) ==> vsa_contains(*self, p@),
            join_free(*self) ==> (r matches Some(p) ==> forall|q: ASTV|
                #[trigger] vsa_contains(*self, q) ==> crate::lang::cap_usize(
                    crate::lang::cost_v(p@),
                ) <= crate::lang::cap_usize(crate::lang::cost_v(q))),
        decreases *self,
    {
        match self {
            VSA::Leaf(ps) => {
                proof {
                    crate::lang::lemma_args_view(*ps, ps.len() as int);
                }
                if ps.len() == 0 {
                    return None;
                }
                let mut best: usize = 0;
                let mut best_cost: usize = ps[0].cost();
                let mut i: usize = 1;
                while i < ps.len()
                    invariant
                        1 <= i <= ps.len(),
                        best < i,
                        best_cost as nat == crate::lang::cap_usize(
                            crate::lang::cost_v(ast_view(ps[best as int])),
                        ),
                        forall|j: int|
                            0 <= j < i ==> best_cost as nat <= crate::lang::cap_usize(
                                crate::lang::cost_v(ast_view(#[trigger] ps[j])),
                            ),
                    decreases ps.len() - i,
                {
                    let c = ps[i].cost();
                    if c < best_cost {
                        best = i;
                        best_cost = c;
                    }
                    i = i + 1;
                }
                let p = ps[best].dup();
                proof {
                    assert(args_view(*ps)[best as int] == p@);
                    assert(args_view(*ps).contains(p@));
                    assert forall|q: ASTV| #[trigger]
                        vsa_contains(*self, q) implies crate::lang::cap_usize(
                        crate::lang::cost_v(p@),
                    ) <= crate::lang::cap_usize(crate::lang::cost_v(q)) by {
                        let j = choose|j: int|
                            0 <= j < args_view(*ps).len() && args_view(*ps)[j] == q;
                        assert(ast_view(ps[j]) == q);
                    }
                }
                Some(p)
            },
            VSA::Union(cs) => {
                let mut found: Option<AST> = None;
                let mut found_cost: usize = 0;
                let mut i: usize = 0;
                while i < cs.len()
                    invariant
                        i <= cs.len(),
                        found is None ==> forall|j: int|
                            0 <= j < i ==> !vsa_has_prog(*#[trigger] cs[j]),
                        found matches Some(p) ==> vsa_contains(*self, p@) && vsa_has_prog(
                            *self,
                        ) && found_cost as nat == crate::lang::cap_usize(
                            crate::lang::cost_v(p@),
                        ),
                        join_free(*self) ==> forall|j: int, q: ASTV|
                            0 <= j < i && #[trigger] vsa_contains(*cs[j], q) ==> (
                            found matches Some(p) && found_cost as nat <= crate::lang::cap_usize(
                                crate::lang::cost_v(q),
                            )),
                    decreases cs.len() - i,
                {
                    proof {
                        broadcast use vstd::std_specs::vec::axiom_vec_index_decreases;

                        assert(*self == VSA::Union(*cs));
                        assert(decreases_to!(*cs => cs[i as int]));
                        assert(wf_vsa(*cs[i as int]));
                        if join_free(*self) {
                            assert(members_join_free(*cs));
                            assert(join_free(*cs[i as int]));
                        }
                    }
                    let r0 = cs[i].pick_best();
                    match r0 {
                        Some(p) => {
                            proof {
                                lemma_union_intro(*cs, i as int, p@);
                                lemma_union_has_intro(*cs, i as int);
                            }
                            let c = p.cost();
                            match &found {
                                Some(_) => {
                                    if c < found_cost {
                                        found = Some(p);
                                        found_cost = c;
                                    }
                                },
                                None => {
                                    found = Some(p);
                                    found_cost = c;
                                },
                            }
                        },
                        None => {
                            proof {
                                if join_free(*self) {
                                    assert forall|q: ASTV|
                                        vsa_contains(*#[trigger] cs[i as int], q)
                                        implies false by {
                                        lemma_contains_has_prog(rc_v(&cs[i as int]), q);
                                    }
                                }
                            }
                        },
                    }
                    i = i + 1;
                }
                proof {
                    if found is None && union_has_prog(*cs) {
                        let j = choose|j: int|
                            0 <= j < cs.len() && vsa_has_prog(*#[trigger] cs[j]);
                    }
                    if join_free(*self) {
                        match &found {
                            Some(p) => {
                                assert forall|q: ASTV| #[trigger]
                                    vsa_contains(*self, q) implies crate::lang::cap_usize(
                                    crate::lang::cost_v(p@),
                                ) <= crate::lang::cap_usize(crate::lang::cost_v(q)) by {
                                    let j = choose|j: int|
                                        0 <= j < cs.len() && vsa_contains(
                                            *#[trigger] cs[j],
                                            q,
                                        );
                                }
                            },
                            None => {},
                        }
                    }
                }
                found
            },
            VSA::Join { op, children } => {
                let mut picks: Vec<AST> = Vec::new();
                let mut i: usize = 0;
                while i < children.len()
                    invariant
                        i <= children.len(),
                        picks.len() == i,
                        forall|j: int| 0 <= j < i ==> vsa_has_prog(*#[trigger] children[j]),
                        forall|j: int|
                            0 <= j < i ==> vsa_contains(
                                *#[trigger] children[j],
                                ast_view(picks[j]),
                            ),
                    decreases children.len() - i,
                {
                    proof {
                        broadcast use vstd::std_specs::vec::axiom_vec_index_decreases;

                        assert(*self == VSA::Join { op: *op, children: *children });
                        assert(decreases_to!(*children => children[i as int]));
                        assert(wf_vsa(*children[i as int]));
                    }
                    let r0 = children[i].pick_best();
                    match r0 {
                        Some(p) => {
                            picks.push(p);
                        },
                        None => {
                            proof {
                                assert(!join_has_prog(*children));
                            }
                            return None;
                        },
                    }
                    i = i + 1;
                }
                let r = AST::App { fun: *op, args: picks };
                proof {
                    crate::lang::lemma_ast_view_app(*op, picks);
                    let pargs = r@->App_args;
                    assert forall|j: int| 0 <= j < children.len() implies vsa_contains(
                        *#[trigger] children[j],
                        pargs[j],
                    ) by {
                        assert(pargs[j] == ast_view(picks[j]));
                    }
                    assert(join_args_contained(*children, pargs));
                    assert(join_has_prog(*children));
                    assert(!join_free(*self));
                }
                Some(r)
            },
        }
    }
}

} // verus!
