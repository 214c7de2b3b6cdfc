//! The domain language: literal values, operator tags, and program trees.
//!
//! Strings are modeled in specifications by their UTF-8 bytes, so that
//! every location in a program (a match offset, a slice bound) is a byte
//! offset into the subject string, exactly as the regex engine reports them.

#![verifier::loop_isolation(false)]

use vstd::prelude::*;
use vstd::utf8::encode_utf8;

verus! {

broadcast use vstd::std_specs::vec::group_vec_axioms, vstd::seq::group_seq_axioms;

/// Mathematical model of a literal value.
pub enum LitV {
    Str(Seq<u8>),
    Loc(nat),
    Bool(bool),
    End,
    Input,
}

/// Operator tags of the DSL.
#[derive(Clone, Copy, PartialEq, Eq, Hash, Debug, Structural)]
pub enum Fun {
    Concat,
    Find,
    FindEnd,
    Slice,
    LocAdd,
    LocSub,
    Lowercase,
    Uppercase,
    Equal,
}

/// A literal: a string constant, a location (byte offset), a boolean,
/// the end-of-string sentinel, or the input placeholder.
#[derive(PartialEq, Eq, Hash, Debug)]
pub enum Lit {
    StringConst(String),
    LocConst(usize),
    BoolConst(bool),
    LocEnd,
    Input,
}

impl View for Lit {
    type V = LitV;

    open spec fn view(&self) -> LitV {
        match self {
            Lit::StringConst(s) => LitV::Str(encode_utf8(s@)),
            Lit::LocConst(n) => LitV::Loc(*n as nat),
            Lit::BoolConst(b) => LitV::Bool(*b),
            Lit::LocEnd => LitV::End,
            Lit::Input => LitV::Input,
        }
    }
}

/// Mathematical model of a program tree.
pub enum ASTV {
    App { fun: Fun, args: Seq<ASTV> },
    Lit(LitV),
}

/// A program: an operator applied to argument programs, or a literal.
#[derive(PartialEq, Eq, Hash, Debug)]
pub enum AST {
    App { fun: Fun, args: Vec<AST> },
    Lit(Lit),
}

/// The model of a program tree.
pub open spec fn ast_view(a: AST) -> ASTV
    decreases a, 0int,
{
    match a {
        AST::App { fun, args } => ASTV::App {
            fun,
            args: args_view_n(args, args.len() as int),
        },
        AST::Lit(l) => ASTV::Lit(l@),
    }
}

/// The models of the first `n` elements of an argument vector.
pub open spec fn args_view_n(v: Vec<AST>, n: int) -> Seq<ASTV>
    decreases v, n,
{
    if 0 < n <= v.len() {
        proof {
            broadcast use vstd::std_specs::vec::axiom_vec_index_decreases;

            assert(decreases_to!(v => v[n - 1]));
        }
        args_view_n(v, n - 1).push(ast_view(v[n - 1]))
    } else {
        Seq::empty()
    }
}

/// The models of a whole argument vector.
pub open spec fn args_view(v: Vec<AST>) -> Seq<ASTV> {
    args_view_n(v, v.len() as int)
}

pub proof fn lemma_args_view(v: Vec<AST>, n: int)
    requires
        0 <= n <= v.len(),
    ensures
        args_view_n(v, n).len() == n,
        forall|i: int| 0 <= i < n ==> args_view_n(v, n)[i] == ast_view(v[i]),
    decreases n,
{
    if n > 0 {
        lemma_args_view(v, n - 1);
    }
}

pub broadcast proof fn lemma_ast_view_app(fun: Fun, args: Vec<AST>)
    ensures
        #![trigger ast_view(AST::App { fun, args })]
        ast_view(AST::App { fun, args }) matches ASTV::App { fun: f2, args: a2 }
            && f2 == fun
            && a2.len() == args.len()
            && forall|i: int| 0 <= i < args.len() ==> a2[i] == ast_view(args[i]),
{
    lemma_args_view(args, args.len() as int);
}

impl View for AST {
    type V = ASTV;

    open spec fn view(&self) -> ASTV {
        ast_view(*self)
    }
}

/// How many arguments each operator takes.
pub open spec fn arity(f: Fun) -> nat {
    match f {
        Fun::Concat => 2,
        Fun::Find => 3,
        Fun::FindEnd => 3,
        Fun::Slice => 2,
        Fun::LocAdd => 2,
        Fun::LocSub => 2,
        Fun::Lowercase => 1,
        Fun::Uppercase => 1,
        Fun::Equal => 2,
    }
}

impl Lit {
    /// True exactly on the input placeholder.
    pub fn is_input(&self) -> (r: bool)
        ensures
            r == (self@ is Input),
    {
        matches!(self, Lit::Input)
    }

    /// A copy with the same value.
    pub fn dup(&self) -> (r: Lit)
        ensures
            r@ == self@,
    {
        match self {
            Lit::StringConst(s) => Lit::StringConst(s.clone()),
            Lit::LocConst(n) => Lit::LocConst(*n),
            Lit::BoolConst(b) => Lit::BoolConst(*b),
            Lit::LocEnd => Lit::LocEnd,
            Lit::Input => Lit::Input,
        }
    }
}

/// The size of a program: 1 for a literal, 1 plus the sizes of the
/// arguments for an application.
pub open spec fn size_v(a: ASTV) -> nat
    decreases a, 0int,
{
    match a {
        ASTV::Lit(_) => 1,
        ASTV::App { args, .. } => 1 + size_args_n(args, args.len() as int),
    }
}

/// The summed sizes of the first `n` programs of a sequence.
pub open spec fn size_args_n(args: Seq<ASTV>, n: int) -> nat
    decreases args, n,
{
    if 0 < n <= args.len() {
        proof {
            broadcast use vstd::seq::axiom_seq_index_decreases;

            assert(decreases_to!(args => args[n - 1]));
        }
        size_args_n(args, n - 1) + size_v(args[n - 1])
    } else {
        0
    }
}

/// The ranking cost of an operator.
pub open spec fn fun_cost_v(f: Fun) -> nat {
    match f {
        Fun::Concat => 2,
        _ => 1,
    }
}

/// The ranking cost of a literal: the input placeholder and the
/// end-of-string sentinel are free, everything else costs 1.
pub open spec fn lit_cost_v(l: LitV) -> nat {
    match l {
        LitV::Input => 0,
        LitV::End => 0,
        _ => 1,
    }
}

/// The ranking cost of a program: a literal costs its own cost; an
/// application costs its operator's cost plus the sizes of its arguments.
pub open spec fn cost_v(a: ASTV) -> nat {
    match a {
        ASTV::Lit(l) => lit_cost_v(l),
        ASTV::App { fun, args } => fun_cost_v(fun) + size_args_n(args, args.len() as int),
    }
}

/// A natural number clamped to the range of `usize`.
pub open spec fn cap_usize(n: nat) -> nat {
    if n > usize::MAX as nat {
        usize::MAX as nat
    } else {
        n
    }
}

impl Fun {
    /// The ranking cost of this operator.
    pub fn cost(&self) -> (c: usize)
        ensures
            c == fun_cost_v(*self),
    {
        match self {
            Fun::Concat => 2,
            _ => 1,
        }
    }
}

impl Lit {
    /// The ranking cost of this literal.
    pub fn cost(&self) -> (c: usize)
        ensures
            c == lit_cost_v(self@),
    {
        match self {
            Lit::Input => 0,
            Lit::LocEnd => 0,
            _ => 1,
        }
    }
}

impl AST {
    /// The number of nodes in this program, saturating at `usize::MAX`.
    pub fn size(&self) -> (n: usize)
        ensures
            n as nat == cap_usize(size_v(self@)),
        decreases self,
    {
        match self {
            AST::Lit(_) => 1,
            AST::App { fun, args } => {
                proof {
                    lemma_ast_view_app(*fun, *args);
                }
                let ghost av = ast_view(*self)->App_args;
                let mut total: usize = 1;
                let mut i: usize = 0;
                while i < args.len()
                    invariant
                        i <= args.len(),
                        av.len() == args.len(),
                        forall|j: int| 0 <= j < args.len() ==> av[j] == ast_view(args[j]),
                        total as nat == cap_usize(1 + size_args_n(av, i as int)),
                    decreases args.len() - i,
                {
                    proof {
                        broadcast use vstd::std_specs::vec::axiom_vec_index_decreases;

                        assert(*self == AST::App { fun: *fun, args: *args });
                        assert(decreases_to!(*args => args[i as int]));
                    }
                    let s = args[i].size();
                    total = if total > usize::MAX - s {
                        usize::MAX
                    } else {
                        total + s
                    };
                    i = i + 1;
                }
                total
            },
        }
    }

    /// The ranking cost of this program, saturating at `usize::MAX`.
    pub fn cost(&self) -> (c: usize)
        ensures
            c as nat == cap_usize(cost_v(self@)),
    {
        match self {
            AST::Lit(l) => l.cost(),
            AST::App { fun, args } => {
                proof {
                    lemma_ast_view_app(*fun, *args);
                }
                let ghost av = ast_view(*self)->App_args;
                let base = fun.cost();
                let mut total: usize = base;
                let mut i: usize = 0;
                while i < args.len()
                    invariant
                        i <= args.len(),
                        base == fun_cost_v(*fun),
                        av.len() == args.len(),
                        forall|j: int| 0 <= j < args.len() ==> av[j] == ast_view(args[j]),
                        total as nat == cap_usize(fun_cost_v(*fun) + size_args_n(av, i as int)),
                    decreases args.len() - i,
                {
                    let s = args[i].size();
                    total = if total > usize::MAX - s {
                        usize::MAX
                    } else {
                        total + s
                    };
                    i = i + 1;
                }
                total
            },
        }
    }

    /// A copy with the same model.
    pub fn dup(&self) -> (r: AST)
        ensures
            r@ == self@,
        decreases self,
    {
        match self {
            AST::Lit(l) => AST::Lit(l.dup()),
            AST::App { fun, args } => {
                proof {
                    lemma_ast_view_app(*fun, *args);
                }
                let mut v: Vec<AST> = Vec::new();
                let mut i: usize = 0;
                while i < args.len()
                    invariant
                        i <= args.len(),
                        v.len() == i,
                        forall|j: int| 0 <= j < i ==> ast_view(v[j]) == ast_view(args[j]),
                    decreases args.len() - i,
                {
                    proof {
                        broadcast use vstd::std_specs::vec::axiom_vec_index_decreases;

                        assert(*self == AST::App { fun: *fun, args: *args });
                        assert(decreases_to!(*args => args[i as int]));
                    }
                    let d = args[i].dup();
                    v.push(d);
                    i = i + 1;
                }
                let r = AST::App { fun: *fun, args: v };
                proof {
                    lemma_ast_view_app(*fun, v);
                    assert(ast_view(r)->App_args =~= ast_view(*self)->App_args);
                }
                r
            },
        }
    }
}

/// Two UTF-8 encodings agree exactly when the character sequences do.
pub proof fn lemma_encode_utf8_injective(a: Seq<char>, b: Seq<char>)
    ensures
        (encode_utf8(a) == encode_utf8(b)) <==> (a == b),
{
    broadcast use vstd::utf8::encode_utf8_decode_utf8;

    if encode_utf8(a) == encode_utf8(b) {
        assert(vstd::utf8::decode_utf8(encode_utf8(a)) == a);
        assert(vstd::utf8::decode_utf8(encode_utf8(b)) == b);
    }
}

/// Structural equality of literals, decided at the level of the model.
pub fn lit_eq(a: &Lit, b: &Lit) -> (r: bool)
    ensures
        r == (a@ == b@),
{
    match (a, b) {
        (Lit::StringConst(x), Lit::StringConst(y)) => {
            let r = *x == *y;
            proof {
                lemma_encode_utf8_injective(x@, y@);
            }
            r
        },
        (Lit::LocConst(x), Lit::LocConst(y)) => x == y,
        (Lit::BoolConst(x), Lit::BoolConst(y)) => x == y,
        (Lit::LocEnd, Lit::LocEnd) => true,
        (Lit::Input, Lit::Input) => true,
        _ => {
            proof {
                assert(a@ != b@);
            }
            false
        },
    }
}

/// Structural equality of programs, decided at the level of the model.
pub fn ast_eq(a: &AST, b: &AST) -> (r: bool)
    ensures
        r == (a@ == b@),
    decreases a,
{
    match (a, b) {
        (AST::Lit(x), AST::Lit(y)) => lit_eq(x, y),
        (AST::App { fun: f1, args: a1 }, AST::App { fun: f2, args: a2 }) => {
            proof {
                lemma_ast_view_app(*f1, *a1);
                lemma_ast_view_app(*f2, *a2);
                assert(*a == AST::App { fun: *f1, args: *a1 });
                assert(*b == AST::App { fun: *f2, args: *a2 });
                assert(a@->App_fun == *f1 && a@->App_args.len() == a1.len());
                assert(b@->App_fun == *f2 && b@->App_args.len() == a2.len());
            }
            if !(*f1 == *f2 && a1.len() == a2.len()) {
                return false;
            }
            let mut i: usize = 0;
            while i < a1.len()
                invariant
                    i <= a1.len(),
                    forall|j: int| 0 <= j < i ==> ast_view(a1[j]) == ast_view(a2[j]),
                decreases a1.len() - i,
            {
                proof {
                    broadcast use vstd::std_specs::vec::axiom_vec_index_decreases;

                    assert(*a == AST::App { fun: *f1, args: *a1 });
                    assert(decreases_to!(*a1 => a1[i as int]));
                }
                if !ast_eq(&a1[i], &a2[i]) {
                    proof {
                        assert(a@->App_args[i as int] == ast_view(a1[i as int]));
                        assert(b@->App_args[i as int] == ast_view(a2[i as int]));
                    }
                    return false;
                }
                i = i + 1;
            }
            proof {
                assert(args_view_n(*a1, a1.len() as int) =~= args_view_n(*a2, a2.len() as int));
            }
            true
        },
        _ => false,
    }
}

} // verus!
