//! Display strings for programs, in the surface syntax of the DSL:
//! `(X[3..7])`, `(a <> b)`, `X.find(pattern, i)`. The exact text is
//! fixed by rendering functions over the program model.

#![verifier::loop_isolation(false)]

use vstd::prelude::*;
use vstd::utf8::{decode_utf8, encode_utf8};

use crate::lang::{ast_view, lemma_ast_view_app, lemma_encode_utf8_injective, AST, ASTV, Fun, Lit,
    LitV};

verus! {

broadcast use vstd::std_specs::vec::group_vec_axioms, vstd::seq::group_seq_axioms;

/// The text of one decimal digit.
pub open spec fn digit_seq(d: int) -> Seq<char> {
    if d == 0 {
        "0"@
    } else if d == 1 {
        "1"@
    } else if d == 2 {
        "2"@
    } else if d == 3 {
        "3"@
    } else if d == 4 {
        "4"@
    } else if d == 5 {
        "5"@
    } else if d == 6 {
        "6"@
    } else if d == 7 {
        "7"@
    } else if d == 8 {
        "8"@
    } else {
        "9"@
    }
}

/// The decimal text of a number, most significant digit first.
pub open spec fn dec_render(n: nat) -> Seq<char>
    decreases n,
{
    if n < 10 {
        digit_seq(n as int)
    } else {
        dec_render(n / 10) + digit_seq((n % 10) as int)
    }
}

/// The text of a literal: a quoted string, a decimal location, a truth
/// value, the end sentinel `$`, or the input placeholder `X`.
pub open spec fn lit_render(l: LitV) -> Seq<char> {
    match l {
        LitV::Str(bs) => "'"@ + decode_utf8(bs) + "'"@,
        LitV::Loc(n) => dec_render(n),
        LitV::Bool(b) => if b {
            "true"@
        } else {
            "false"@
        },
        LitV::End => "$"@,
        LitV::Input => "X"@,
    }
}

/// The text of a program. A concatenation with an empty-string side
/// prints as the other side alone; an application whose argument count
/// is not its operator's is printed as a bare operator marker.
pub open spec fn ast_render(a: ASTV) -> Seq<char>
    decreases a,
{
    match a {
        ASTV::Lit(l) => lit_render(l),
        ASTV::App { fun, args } => {
            proof {
                broadcast use vstd::seq::axiom_seq_index_decreases;

                if 0 < args.len() {
                    assert(decreases_to!(args => args[0]));
                }
                if 1 < args.len() {
                    assert(decreases_to!(args => args[1]));
                }
                if 2 < args.len() {
                    assert(decreases_to!(args => args[2]));
                }
            }
            match fun {
                Fun::Concat => {
                    if args.len() == 2 && args[0] == ASTV::Lit(LitV::Str(Seq::empty())) {
                        ast_render(args[1])
                    } else if args.len() == 2 && args[1] == ASTV::Lit(
                        LitV::Str(Seq::empty()),
                    ) {
                        ast_render(args[0])
                    } else if args.len() == 2 {
                        "("@ + ast_render(args[0]) + " <> "@ + ast_render(args[1]) + ")"@
                    } else {
                        "(<>)"@
                    }
                },
                Fun::Find | Fun::FindEnd => {
                    if args.len() == 3 {
                        ast_render(args[0]) + (if fun is Find {
                            ".find("@
                        } else {
                            ".find_end("@
                        }) + ast_render(args[1]) + ", "@ + ast_render(args[2]) + ")"@
                    } else {
                        "(find)"@
                    }
                },
                Fun::Slice => {
                    if args.len() == 2 {
                        "(X["@ + ast_render(args[0]) + ".."@ + ast_render(args[1]) + "])"@
                    } else {
                        "(X[..])"@
                    }
                },
                Fun::LocAdd | Fun::LocSub | Fun::Equal => {
                    if args.len() == 2 {
                        "("@ + ast_render(args[0]) + (match fun {
                            Fun::LocAdd => " + "@,
                            Fun::LocSub => " - "@,
                            _ => " == "@,
                        }) + ast_render(args[1]) + ")"@
                    } else {
                        "(op)"@
                    }
                },
                Fun::Lowercase | Fun::Uppercase => {
                    if args.len() == 1 {
                        ast_render(args[0]) + (if fun is Lowercase {
                            ".lower()"@
                        } else {
                            ".upper()"@
                        })
                    } else {
                        "(case)"@
                    }
                },
            }
        },
    }
}

/// One decimal digit as text.
fn digit_str(d: usize) -> (r: &'static str)
    requires
        d <= 9,
    ensures
        r@ == digit_seq(d as int),
{
    match d {
        0 => "0",
        1 => "1",
        2 => "2",
        3 => "3",
        4 => "4",
        5 => "5",
        6 => "6",
        7 => "7",
        8 => "8",
        _ => "9",
    }
}

/// The text of a digit list, least significant digit first in the list,
/// rendered most significant digit first.
spec fn digits_render(ds: Seq<usize>) -> Seq<char>
    decreases ds.len(),
{
    if ds.len() == 0 {
        Seq::empty()
    } else {
        digit_seq(ds.last() as int) + digits_render(ds.drop_last())
    }
}

/// Peeling the least significant digit off the front of a suffix.
proof fn lemma_digits_render_snoc(ds: Seq<usize>, i: int, l: int)
    requires
        0 <= i < l <= ds.len(),
    ensures
        digits_render(ds.subrange(i, l)) == digits_render(ds.subrange(i + 1, l)) + digit_seq(
            ds[i] as int,
        ),
    decreases l - i,
{
    if l == i + 1 {
        assert(ds.subrange(i, l).drop_last() =~= Seq::<usize>::empty());
        assert(ds.subrange(i + 1, l) =~= Seq::<usize>::empty());
        assert(digits_render(ds.subrange(i, l)) =~= digits_render(ds.subrange(i + 1, l))
            + digit_seq(ds[i] as int));
    } else {
        lemma_digits_render_snoc(ds, i, l - 1);
        assert(ds.subrange(i, l).drop_last() =~= ds.subrange(i, l - 1));
        assert(ds.subrange(i + 1, l).drop_last() =~= ds.subrange(i + 1, l - 1));
        assert(ds.subrange(i, l).last() == ds[l - 1]);
        assert(ds.subrange(i + 1, l).last() == ds[l - 1]);
        assert(digits_render(ds.subrange(i, l)) =~= digits_render(ds.subrange(i + 1, l))
            + digit_seq(ds[i] as int));
    }
}

/// The decimal text of `n`.
#[verifier::loop_isolation(true)]
fn usize_to_string(n: usize) -> (r: String)
    ensures
        r@ == dec_render(n as nat),
{
    let mut digits: Vec<usize> = Vec::new();
    let mut m = n;
    loop
        invariant_except_break
            digits@.len() > 0 ==> m > 0,
        invariant
            digits@.len() == 0 ==> m == n,
            forall|j: int| 0 <= j < digits@.len() ==> #[trigger] digits@[j] <= 9,
            digits@.len() > 0 && m > 0 ==> dec_render(n as nat) == dec_render(m as nat)
                + digits_render(digits@),
        ensures
            m == 0,
            digits@.len() > 0,
            forall|j: int| 0 <= j < digits@.len() ==> #[trigger] digits@[j] <= 9,
            dec_render(n as nat) == digits_render(digits@),
        decreases m,
    {
        let ghost pre = digits@;
        let d: usize = m % 10;
        digits.push(d);
        proof {
            assert(digits@.last() == d);
            assert(digits@.drop_last() =~= pre);
            assert(digits_render(digits@) == digit_seq(d as int) + digits_render(pre));
            if pre.len() == 0 {
                assert(digits_render(pre) =~= Seq::<char>::empty());
                assert(digits_render(digits@) =~= digit_seq(d as int));
            }
        }
        let ghost m_pre = m as nat;
        m = m / 10;
        proof {
            if pre.len() == 0 {
                if m > 0 {
                    assert(dec_render(n as nat) == dec_render(m as nat) + digit_seq(d as int));
                    assert(digits_render(digits@) =~= digit_seq(d as int));
                    assert(dec_render(m as nat) + digits_render(digits@) =~= dec_render(
                        n as nat,
                    ));
                } else {
                    assert(m_pre < 10);
                    assert(dec_render(n as nat) == digit_seq(d as int));
                    assert(digits_render(digits@) =~= digit_seq(d as int));
                }
            } else {
                if m > 0 {
                    assert(dec_render(m_pre) == dec_render(m as nat) + digit_seq(d as int));
                    assert(digits_render(digits@) =~= digit_seq(d as int) + digits_render(pre));
                    assert(dec_render(m as nat) + digits_render(digits@) =~= dec_render(
                        n as nat,
                    ));
                } else {
                    assert(m_pre < 10);
                    assert(dec_render(m_pre) == digit_seq(d as int));
                    assert(digits_render(digits@) =~= digit_seq(d as int) + digits_render(pre));
                    assert(digits_render(digits@) =~= dec_render(n as nat));
                }
            }
        }
        if m == 0 {
            break;
        }
    }
    let mut s = String::new();
    let ghost l = digits@.len() as int;
    let mut i = digits.len();
    while i > 0
        invariant
            i <= digits@.len(),
            l == digits@.len(),
            forall|j: int| 0 <= j < digits@.len() ==> #[trigger] digits@[j] <= 9,
            s@ == digits_render(digits@.subrange(i as int, l)),
        decreases i,
    {
        i = i - 1;
        proof {
            lemma_digits_render_snoc(digits@, i as int, l);
        }
        s.append(digit_str(digits[i]));
    }
    proof {
        assert(digits@.subrange(0, l) =~= digits@);
    }
    s
}

impl Lit {
    /// This literal in the DSL's surface syntax.
    pub fn to_display_string(&self) -> (r: String)
        ensures
            r@ == lit_render(self@),
    {
        match self {
            Lit::StringConst(s) => {
                let mut r = String::from_str("'");
                r.append(s.as_str());
                r.append("'");
                proof {
                    broadcast use vstd::utf8::encode_utf8_decode_utf8;

                    assert(decode_utf8(encode_utf8(s@)) == s@);
                }
                r
            },
            Lit::LocConst(n) => usize_to_string(*n),
            Lit::BoolConst(b) => {
                if *b {
                    String::from_str("true")
                } else {
                    String::from_str("false")
                }
            },
            Lit::LocEnd => String::from_str("$"),
            Lit::Input => String::from_str("X"),
        }
    }

    /// Whether this literal is the empty string constant.
    fn is_empty_string(&self) -> (r: bool)
        ensures
            r == (self@ == LitV::Str(Seq::<u8>::empty())),
    {
        match self {
            Lit::StringConst(s) => {
                let e = s.as_str().is_empty();
                proof {
                    lemma_encode_utf8_injective(s@, Seq::empty());
                    assert(encode_utf8(Seq::<char>::empty()) =~= Seq::<u8>::empty());
                }
                e
            },
            _ => false,
        }
    }
}

impl AST {
    /// Whether this program is the empty string literal.
    fn is_empty_string_lit(&self) -> (r: bool)
        ensures
            r == (self@ == ASTV::Lit(LitV::Str(Seq::<u8>::empty()))),
    {
        match self {
            AST::Lit(l) => {
                proof {
                    assert(*self == AST::Lit(*l));
                }
                l.is_empty_string()
            },
            AST::App { fun, args } => {
                proof {
                    lemma_ast_view_app(*fun, *args);
                    assert(*self == AST::App { fun: *fun, args: *args });
                }
                false
            },
        }
    }

    /// This program in the DSL's surface syntax.
    pub fn to_display_string(&self) -> (r: String)
        ensures
            r@ == ast_render(self@),
        decreases *self,
    {
        match self {
            AST::Lit(l) => {
                proof {
                    assert(*self == AST::Lit(*l));
                }
                l.to_display_string()
            },
            AST::App { fun, args } => {
                proof {
                    lemma_ast_view_app(*fun, *args);
                    assert(*self == AST::App { fun: *fun, args: *args });
                }
                let ghost av = ast_view(*self)->App_args;
                let mut parts: Vec<String> = Vec::new();
                let mut i: usize = 0;
                while i < args.len()
                    invariant
                        i <= args.len(),
                        parts.len() == i,
                        av.len() == args.len(),
                        forall|j: int| 0 <= j < args.len() ==> av[j] == ast_view(args[j]),
                        forall|j: int| 0 <= j < i ==> #[trigger] parts[j]@ == ast_render(av[j]),
                    decreases args.len() - i,
                {
                    proof {
                        broadcast use vstd::std_specs::vec::axiom_vec_index_decreases;

                        assert(decreases_to!(*args => args[i as int]));
                    }
                    let p = args[i].to_display_string();
                    parts.push(p);
                    i = i + 1;
                }
                match fun {
                    Fun::Concat => {
                        if args.len() == 2 && args[0].is_empty_string_lit() {
                            let mut r = String::new();
                            r.append(parts[1].as_str());
                            r
                        } else if args.len() == 2 && args[1].is_empty_string_lit() {
                            let mut r = String::new();
                            r.append(parts[0].as_str());
                            r
                        } else if args.len() == 2 {
                            let mut r = String::from_str("(");
                            r.append(parts[0].as_str());
                            r.append(" <> ");
                            r.append(parts[1].as_str());
                            r.append(")");
                            r
                        } else {
                            String::from_str("(<>)")
                        }
                    },
                    Fun::Find | Fun::FindEnd => {
                        if args.len() == 3 {
                            let mut r = String::new();
                            r.append(parts[0].as_str());
                            r.append(
                                if matches!(fun, Fun::Find) {
                                    ".find("
                                } else {
                                    ".find_end("
                                },
                            );
                            r.append(parts[1].as_str());
                            r.append(", ");
                            r.append(parts[2].as_str());
                            r.append(")");
                            r
                        } else {
                            String::from_str("(find)")
                        }
                    },
                    Fun::Slice => {
                        if args.len() == 2 {
                            let mut r = String::from_str("(X[");
                            r.append(parts[0].as_str());
                            r.append("..");
                            r.append(parts[1].as_str());
                            r.append("])");
                            r
                        } else {
                            String::from_str("(X[..])")
                        }
                    },
                    Fun::LocAdd | Fun::LocSub | Fun::Equal => {
                        if args.len() == 2 {
                            let mut r = String::from_str("(");
                            r.append(parts[0].as_str());
                            r.append(
                                match fun {
                                    Fun::LocAdd => " + ",
                                    Fun::LocSub => " - ",
                                    _ => " == ",
                                },
                            );
                            r.append(parts[1].as_str());
                            r.append(")");
                            r
                        } else {
                            String::from_str("(op)")
                        }
                    },
                    Fun::Lowercase | Fun::Uppercase => {
                        if args.len() == 1 {
                            let mut r = String::new();
                            r.append(parts[0].as_str());
                            r.append(
                                if matches!(fun, Fun::Lowercase) {
                                    ".lower()"
                                } else {
                                    ".upper()"
                                },
                            );
                            r
                        } else {
                            String::from_str("(case)")
                        }
                    },
                }
            },
        }
    }
}

} // verus!
