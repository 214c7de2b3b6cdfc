//! String helpers for the evaluator and the learner: byte-range
//! substrings, concatenation, case transforms, and non-overlapping
//! literal search, all stated over the strings' UTF-8 bytes.

#![verifier::loop_isolation(false)]

use vstd::prelude::*;
use vstd::string::StrSliceExecFns;
use vstd::string::StringSliceAdditionalSpecFns;
use vstd::utf8::{encode_utf8, is_char_boundary, valid_utf8};

verus! {

broadcast use vstd::std_specs::vec::group_vec_axioms, vstd::seq::group_seq_axioms;

/// Names the result of `str::to_lowercase`, a function of the string's
/// bytes alone.
pub uninterp spec fn lower_of(s: Seq<u8>) -> Seq<u8>;

/// Names the result of `str::to_uppercase`, a function of the string's
/// bytes alone.
pub uninterp spec fn upper_of(s: Seq<u8>) -> Seq<u8>;

/// Relies on `str::to_lowercase`: the lowercased text, depending on the
/// characters alone.
#[verifier::external_body]
pub fn lowercase(s: &str) -> (r: String)
    ensures
        encode_utf8(r@) == lower_of(encode_utf8(s@)),
{
    s.to_lowercase()
}

/// Relies on `str::to_uppercase`: the uppercased text, depending on the
/// characters alone.
#[verifier::external_body]
pub fn uppercase(s: &str) -> (r: String)
    ensures
        encode_utf8(r@) == upper_of(encode_utf8(s@)),
{
    s.to_uppercase()
}

/// UTF-8 encoding distributes over concatenation of character sequences.
pub proof fn lemma_encode_utf8_concat(a: Seq<char>, b: Seq<char>)
    ensures
        encode_utf8(a + b) == encode_utf8(a) + encode_utf8(b),
    decreases a.len(),
{
    if a.len() == 0 {
        assert(a + b =~= b);
        assert(encode_utf8(a) + encode_utf8(b) =~= encode_utf8(b));
    } else {
        assert((a + b).drop_first() =~= a.drop_first() + b);
        lemma_encode_utf8_concat(a.drop_first(), b);
        assert(encode_utf8(a + b) =~= encode_utf8(a) + encode_utf8(b));
    }
}

/// The concatenation of two strings, stated over their bytes.
pub fn concat_str(a: &str, b: &str) -> (r: String)
    ensures
        encode_utf8(r@) == encode_utf8(a@) + encode_utf8(b@),
{
    let mut r = a.to_owned();
    r.append(b);
    proof {
        lemma_encode_utf8_concat(a@, b@);
    }
    r
}

/// The substring of `s` between byte offsets `start` and `end`, which
/// must be character boundaries.
pub fn substring_bytes(s: &str, start: usize, end: usize) -> (r: String)
    requires
        start <= end <= encode_utf8(s@).len(),
        is_char_boundary(encode_utf8(s@), start as int),
        is_char_boundary(encode_utf8(s@), end as int),
    ensures
        encode_utf8(r@) == encode_utf8(s@).subrange(start as int, end as int),
{
    proof {
        broadcast use vstd::utf8::encode_utf8_valid_utf8;

        assert(valid_utf8(encode_utf8(s@)));
    }
    let (pre, _) = s.split_at(end);
    proof {
        let bs = encode_utf8(s@);
        let pb = bs.subrange(0, end as int);
        assert(pre.spec_bytes() =~= pb);
        vstd::utf8::valid_utf8_split(bs, end as int);
        assert(valid_utf8(pb));
        if (start as int) < pb.len() {
            vstd::utf8::is_char_boundary_iff_not_is_continuation_byte(bs, start as int);
            vstd::utf8::is_char_boundary_iff_not_is_continuation_byte(pb, start as int);
            assert(pb[start as int] == bs[start as int]);
            assert(is_char_boundary(pb, start as int));
        } else {
            assert(start == end);
            vstd::utf8::is_char_boundary_start_end_of_seq(pb);
            assert(is_char_boundary(pb, start as int));
        }
    }
    let (_, mid) = pre.split_at(start);
    proof {
        assert(mid.spec_bytes() =~= encode_utf8(s@).subrange(start as int, end as int));
    }
    mid.to_owned()
}

/// Whether byte offset `i` of `s` is a character boundary.
pub fn boundary_at(s: &str, i: usize) -> (r: bool)
    ensures
        r == is_char_boundary(encode_utf8(s@), i as int),
{
    s.is_char_boundary(i)
}

/// The byte length of `s`.
pub fn byte_len(s: &str) -> (r: usize)
    ensures
        r == encode_utf8(s@).len(),
{
    proof {
        assert(s.spec_bytes() == encode_utf8(s@));
    }
    s.as_bytes().len()
}

/// The successive non-overlapping leftmost occurrences of the literal
/// `p` in `t`, scanning from byte offset `i`: at each offset, a match of
/// `p` is taken and the scan resumes after it (or one byte further for
/// an empty `p`); otherwise the scan moves one byte on.
pub open spec fn occurrences_from(t: Seq<u8>, p: Seq<u8>, i: int) -> Seq<(usize, usize)>
    decreases t.len() - i + 1,
        when 0 <= i <= t.len() + 1
{
    if i + p.len() <= t.len() && t.subrange(i, i + p.len()) == p {
        seq![(i as usize, (i + p.len()) as usize)] + occurrences_from(
            t,
            p,
            i + if p.len() == 0 {
                1int
            } else {
                p.len() as int
            },
        )
    } else if i < t.len() {
        occurrences_from(t, p, i + 1)
    } else {
        Seq::empty()
    }
}

/// The non-overlapping leftmost occurrences of `p` in `t`.
pub open spec fn occurrences(t: Seq<u8>, p: Seq<u8>) -> Seq<(usize, usize)> {
    occurrences_from(t, p, 0)
}

/// Whether `p`'s bytes occur in `t` at byte offset `i`.
fn matches_at(t: &[u8], p: &[u8], i: usize) -> (r: bool)
    requires
        i + p@.len() <= t@.len(),
    ensures
        r == (t@.subrange(i as int, i + p@.len()) == p@),
{
    let tl = t.len();
    let pl = p.len();
    let mut j: usize = 0;
    while j < pl
        invariant
            j <= p.len(),
            forall|jj: int| 0 <= jj < j ==> t@[i + jj] == p@[jj],
        decreases p.len() - j,
    {
        proof {
            assert(i + j < tl);
        }
        if t[i + j] != p[j] {
            proof {
                assert(t@.subrange(i as int, i + p@.len())[j as int] != p@[j as int]);
            }
            return false;
        }
        j = j + 1;
    }
    proof {
        assert(t@.subrange(i as int, i + p@.len()) =~= p@);
    }
    true
}

/// All non-overlapping leftmost occurrences of the literal `pat` in
/// `text`, as byte ranges, earliest first.
pub fn find_occurrences(text: &str, pat: &str) -> (r: Vec<(usize, usize)>)
    ensures
        r@ == occurrences(encode_utf8(text@), encode_utf8(pat@)),
{
    let t = text.as_bytes();
    let p = pat.as_bytes();
    let tlen = t.len();
    let plen = p.len();
    let mut r: Vec<(usize, usize)> = Vec::new();
    let mut i: usize = 0;
    loop
        invariant
            i <= tlen + 1,
            occurrences(t@, p@) == r@ + occurrences_from(t@, p@, i as int),
        decreases tlen + 1 - i,
    {
        if plen <= tlen && i <= tlen - plen && matches_at(t, p, i) {
            r.push((i, i + plen));
            proof {
                assert(occurrences(t@, p@) =~= r@ + occurrences_from(
                    t@,
                    p@,
                    i + if plen == 0 {
                        1int
                    } else {
                        plen as int
                    },
                ));
            }
            if plen == 0 {
                if i == tlen {
                    proof {
                        assert(occurrences_from(t@, p@, tlen + 1) =~= Seq::empty());
                        assert(occurrences(t@, p@) =~= r@);
                    }
                    return r;
                }
                i = i + 1;
            } else {
                i = i + plen;
            }
        } else if i < tlen {
            i = i + 1;
        } else {
            proof {
                assert(occurrences_from(t@, p@, i as int) =~= Seq::empty());
                assert(occurrences(t@, p@) =~= r@);
            }
            return r;
        }
    }
}


/// Every occurrence starts at or after the scan position, spans exactly
/// the pattern, and ends within the text.
pub proof fn lemma_occurrences_bounds(t: Seq<u8>, p: Seq<u8>, i: int)
    requires
        0 <= i <= t.len() + 1,
        t.len() <= usize::MAX,
    ensures
        forall|k: int|
            0 <= k < occurrences_from(t, p, i).len() ==> i <= #[trigger] occurrences_from(
                t,
                p,
                i,
            )[k].0 && occurrences_from(t, p, i)[k].1 == occurrences_from(t, p, i)[k].0 + p.len()
                && occurrences_from(t, p, i)[k].0 + p.len() <= t.len(),
    decreases t.len() - i + 1,
{
    if i + p.len() <= t.len() && t.subrange(i, i + p.len()) == p {
        let step: int = if p.len() == 0 {
            1
        } else {
            p.len() as int
        };
        lemma_occurrences_bounds(t, p, i + step);
        assert forall|k: int|
            0 <= k < occurrences_from(t, p, i).len() implies i <= #[trigger] occurrences_from(
            t,
            p,
            i,
        )[k].0 && occurrences_from(t, p, i)[k].1 == occurrences_from(t, p, i)[k].0 + p.len()
            && occurrences_from(t, p, i)[k].0 + p.len() <= t.len() by {
            let head = seq![(i as usize, (i + p.len()) as usize)];
            let rest = occurrences_from(t, p, i + step);
            assert(occurrences_from(t, p, i) == head + rest);
            if k == 0 {
                assert(occurrences_from(t, p, i)[0] == (i as usize, (i + p.len()) as usize));
            } else {
                assert(occurrences_from(t, p, i)[k] == rest[k - 1]);
                assert(i + step <= rest[k - 1].0);
            }
        }
    } else if i < t.len() {
        lemma_occurrences_bounds(t, p, i + 1);
        assert forall|k: int|
            0 <= k < occurrences_from(t, p, i).len() implies i <= #[trigger] occurrences_from(
            t,
            p,
            i,
        )[k].0 && occurrences_from(t, p, i)[k].1 == occurrences_from(t, p, i)[k].0 + p.len()
            && occurrences_from(t, p, i)[k].0 + p.len() <= t.len() by {
            assert(occurrences_from(t, p, i) == occurrences_from(t, p, i + 1));
            assert(i + 1 <= occurrences_from(t, p, i + 1)[k].0);
        }
    }
}


/// Names the Unicode alphanumeric class of `char::is_alphanumeric`.
pub uninterp spec fn is_alphanum(c: char) -> bool;

/// Relies on `char::is_alphanumeric`: whether the character is a letter
/// or a digit.
#[verifier::external_body]
pub fn char_is_alphanumeric(c: char) -> (r: bool)
    ensures
        r == is_alphanum(c),
{
    c.is_alphanumeric()
}

/// Relies on `char::to_string` (via `Display`): the one-character string.
#[verifier::external_body]
pub fn char_to_string(c: char) -> (r: String)
    ensures
        r@ == seq![c],
{
    c.to_string()
}

/// The characters of `s`, in order.
pub fn collect_chars(s: &str) -> (r: Vec<char>)
    ensures
        r@ == s@,
{
    let n = s.unicode_len();
    let mut r: Vec<char> = Vec::new();
    let mut i: usize = 0;
    while i < n
        invariant
            i <= n,
            n == s@.len(),
            r@ == s@.subrange(0, i as int),
        decreases n - i,
    {
        let c = s.get_char(i);
        r.push(c);
        proof {
            assert(r@ =~= s@.subrange(0, i + 1));
        }
        i = i + 1;
    }
    proof {
        assert(r@ =~= s@);
    }
    r
}


/// Every occurrence is a real match: the text between its bounds is the
/// pattern itself.
pub proof fn lemma_occurrences_content(t: Seq<u8>, p: Seq<u8>, i: int)
    requires
        0 <= i <= t.len() + 1,
        t.len() <= usize::MAX,
    ensures
        forall|k: int|
            0 <= k < occurrences_from(t, p, i).len() ==> t.subrange(
                #[trigger] occurrences_from(t, p, i)[k].0 as int,
                occurrences_from(t, p, i)[k].0 + p.len(),
            ) == p,
    decreases t.len() - i + 1,
{
    if i + p.len() <= t.len() && t.subrange(i, i + p.len()) == p {
        let step: int = if p.len() == 0 {
            1
        } else {
            p.len() as int
        };
        lemma_occurrences_content(t, p, i + step);
        assert forall|k: int|
            0 <= k < occurrences_from(t, p, i).len() implies t.subrange(
            #[trigger] occurrences_from(t, p, i)[k].0 as int,
            occurrences_from(t, p, i)[k].0 + p.len(),
        ) == p by {
            let head = seq![(i as usize, (i + p.len()) as usize)];
            let rest = occurrences_from(t, p, i + step);
            assert(occurrences_from(t, p, i) == head + rest);
            if k == 0 {
                assert(occurrences_from(t, p, i)[0] == (i as usize, (i + p.len()) as usize));
            } else {
                assert(occurrences_from(t, p, i)[k] == rest[k - 1]);
            }
        }
    } else if i < t.len() {
        lemma_occurrences_content(t, p, i + 1);
        assert(occurrences_from(t, p, i) == occurrences_from(t, p, i + 1));
    }
}

} // verus!
