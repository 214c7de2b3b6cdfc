//! The output-indexed cache of version spaces: maps a vector of literal
//! values (a candidate's outputs on every example, in order) to the space
//! of programs seen to produce it. Lookup is exact — a fingerprint only
//! narrows the entries compared — so deduplication is by value, never by
//! hash.

#![verifier::loop_isolation(false)]

use std::rc::Rc;

use vstd::hash_map::HashMapWithView;
use vstd::prelude::*;

use crate::eval::{eval_ast, lits_view};
use crate::lang::{lit_eq, Lit, LitV, ASTV};
use crate::vsa::{vsa_contains, VSA};

verus! {

broadcast use vstd::std_specs::vec::group_vec_axioms, vstd::seq::group_seq_axioms;

pub const FP_SEED: u64 = 0xcbf29ce484222325;

pub const FP_PRIME: u64 = 0x100000001b3;

/// One fingerprint mixing step.
pub open spec fn mix(h: u64, x: u64) -> u64 {
    vstd::wrapping::u64_specs::wrapping_mul(h ^ x, FP_PRIME)
}

fn mix_e(h: u64, x: u64) -> (r: u64)
    ensures
        r == mix(h, x),
{
    (h ^ x).wrapping_mul(FP_PRIME)
}

/// The fingerprint of the first `n` bytes of a string, from `h`.
pub open spec fn fp_bytes_n(h: u64, bs: Seq<u8>, n: int) -> u64
    decreases n,
{
    if 0 < n <= bs.len() {
        mix(fp_bytes_n(h, bs, n - 1), bs[n - 1] as u64)
    } else {
        h
    }
}

/// The fingerprint of one literal value.
pub open spec fn fp_lit(l: LitV) -> u64 {
    match l {
        LitV::Str(bs) => fp_bytes_n(mix(FP_SEED, 1), bs, bs.len() as int),
        LitV::Loc(n) => mix(mix(FP_SEED, 2), n as u64),
        LitV::Bool(b) => mix(
            FP_SEED,
            if b {
                3
            } else {
                4
            },
        ),
        LitV::End => mix(FP_SEED, 5),
        LitV::Input => mix(FP_SEED, 6),
    }
}

/// The fingerprint of the first `n` literals of a key.
pub open spec fn fp_key_n(ks: Seq<LitV>, n: int) -> u64
    decreases n,
{
    if 0 < n <= ks.len() {
        mix(fp_key_n(ks, n - 1), fp_lit(ks[n - 1]))
    } else {
        FP_SEED
    }
}

/// The fingerprint of a whole key: a function of the key's model alone.
pub open spec fn fp_key(ks: Seq<LitV>) -> u64 {
    fp_key_n(ks, ks.len() as int)
}

fn fp_of_lit(l: &Lit) -> (r: u64)
    ensures
        r == fp_lit(l@),
{
    match l {
        Lit::StringConst(s) => {
            let bs = s.as_str().as_bytes();
            let mut h = mix_e(FP_SEED, 1);
            let mut i: usize = 0;
            proof {
                assert(bs@ == vstd::utf8::encode_utf8(s@));
            }
            while i < bs.len()
                invariant
                    i <= bs.len(),
                    h == fp_bytes_n(mix(FP_SEED, 1), bs@, i as int),
                decreases bs.len() - i,
            {
                h = mix_e(h, bs[i] as u64);
                i = i + 1;
            }
            h
        },
        Lit::LocConst(n) => mix_e(mix_e(FP_SEED, 2), *n as u64),
        Lit::BoolConst(b) => mix_e(
            FP_SEED,
            if *b {
                3
            } else {
                4
            },
        ),
        Lit::LocEnd => mix_e(FP_SEED, 5),
        Lit::Input => mix_e(FP_SEED, 6),
    }
}

/// The fingerprint of a key of literal values.
fn fp_of_key(ks: &Vec<Lit>) -> (r: u64)
    ensures
        r == fp_key(lits_view(*ks)),
{
    let ghost kv = lits_view(*ks);
    let mut h = FP_SEED;
    let mut i: usize = 0;
    while i < ks.len()
        invariant
            i <= ks.len(),
            h == fp_key_n(kv, i as int),
        decreases ks.len() - i,
    {
        let hl = fp_of_lit(&ks[i]);
        proof {
            assert(kv[i as int] == ks[i as int]@);
        }
        h = mix_e(h, hl);
        i = i + 1;
    }
    h
}

/// Whether two keys have the same model.
fn key_eq(a: &Vec<Lit>, b: &Vec<Lit>) -> (r: bool)
    ensures
        r == (lits_view(*a) == lits_view(*b)),
{
    if a.len() != b.len() {
        proof {
            assert(lits_view(*a).len() != lits_view(*b).len());
        }
        return false;
    }
    let mut i: usize = 0;
    while i < a.len()
        invariant
            i <= a.len(),
            a.len() == b.len(),
            forall|j: int| 0 <= j < i ==> #[trigger] lits_view(*a)[j] == lits_view(*b)[j],
        decreases a.len() - i,
    {
        if !lit_eq(&a[i], &b[i]) {
            proof {
                assert(lits_view(*a)[i as int] != lits_view(*b)[i as int]);
            }
            return false;
        }
        i = i + 1;
    }
    proof {
        assert(lits_view(*a) =~= lits_view(*b));
    }
    true
}

/// A vector's model never has more elements than `usize` can count.
proof fn lemma_vec_len_bound<T>(v: &Vec<T>)
    ensures
        v@.len() <= usize::MAX,
{
    assert(vstd::std_specs::vec::spec_vec_len(v) == v@.len());
}

/// Whether an evaluated value fulfils a learning goal: the input
/// placeholder as a goal asks for the input itself; any other goal asks
/// for the goal's value, with the end sentinel answering for a location
/// at the input's length.
pub open spec fn answers_goal(v: LitV, out: LitV, inp: LitV) -> bool {
    if out is Input {
        inp matches LitV::Str(bs) && v == LitV::Str(bs)
    } else {
        v == out || (v is End && (out matches LitV::Loc(n) && (inp matches LitV::Str(bs) && n
            == bs.len())))
    }
}

/// Every program of the space evaluates on `inp` to a value fulfilling
/// the goal `out`.
pub open spec fn space_consistent(s: VSA, inp: LitV, out: LitV) -> bool {
    forall|p: ASTV|
        #[trigger] vsa_contains(s, p) ==> (eval_ast(p, inp) matches Some(v) && answers_goal(
            v,
            out,
            inp,
        ))
}

/// Every cached witness space is keyed by a one-element output vector
/// and holds only programs fulfilling that output as a goal on `inp`.
pub open spec fn cache_consistent(c: &VsaCache, inp: LitV) -> bool {
    forall|t: int|
        0 <= t < c.keys_view().len() ==> ((#[trigger] c.keys_view()[t]).len() == 1
            && space_consistent(c.vals_view()[t], inp, c.keys_view()[t][0]))
}

/// Every space stored in the cache is well-formed.
pub open spec fn cache_vsas_wf(c: &VsaCache) -> bool {
    forall|i: int| 0 <= i < c.vals_view().len() ==> crate::vsa::wf_vsa(#[trigger] c.vals_view()[i])
}

/// A cache from output vectors to version spaces.
pub struct VsaCache {
    keys: Vec<Vec<Lit>>,
    vals: Vec<Rc<VSA>>,
    index: HashMapWithView<u64, Vec<usize>>,
}

impl VsaCache {
    /// The models of the stored keys, in insertion order.
    pub closed spec fn keys_view(&self) -> Seq<Seq<LitV>> {
        self.keys@.map_values(|v: Vec<Lit>| lits_view(v))
    }

    /// The stored spaces, in insertion order.
    pub closed spec fn vals_view(&self) -> Seq<VSA> {
        self.vals@.map_values(|r: Rc<VSA>| *r)
    }

    /// How many entries the cache holds.
    pub open spec fn spec_len(&self) -> nat {
        self.keys_view().len()
    }

    /// Whether some entry has this key.
    pub open spec fn has_key(&self, k: Seq<LitV>) -> bool {
        exists|i: int| 0 <= i < self.keys_view().len() && self.keys_view()[i] == k
    }

    /// The position of the entry with this key.
    pub open spec fn idx_of(&self, k: Seq<LitV>) -> int {
        choose|i: int| 0 <= i < self.keys_view().len() && self.keys_view()[i] == k
    }

    /// The space stored under this key.
    pub open spec fn spec_get(&self, k: Seq<LitV>) -> Option<VSA> {
        if self.has_key(k) {
            Some(self.vals_view()[self.idx_of(k)])
        } else {
            None
        }
    }

    /// The cache's internal soundness: keys are distinct, every entry is
    /// indexed under its fingerprint, and the index holds only real
    /// positions with matching fingerprints.
    pub closed spec fn wf(&self) -> bool {
        &&& self.keys@.len() == self.vals@.len()
        &&& (forall|i: int, j: int|
            0 <= i < j < self.keys_view().len() ==> #[trigger] self.keys_view()[i]
                != #[trigger] self.keys_view()[j])
        &&& (forall|h: u64, j: int|
            self.index@.contains_key(h) && 0 <= j < self.index@[h]@.len()
                ==> #[trigger] self.index@[h]@[j] < self.keys_view().len() && fp_key(
                self.keys_view()[self.index@[h]@[j] as int],
            ) == h)
        &&& (forall|i: int|
            0 <= i < self.keys_view().len() ==> self.index@.contains_key(
                #[trigger] fp_key(self.keys_view()[i]),
            ) && self.index@[fp_key(self.keys_view()[i])]@.contains(i as usize))
    }

    /// A well-formed cache stores one space per key.
    pub proof fn lemma_lens(&self)
        requires
            self.wf(),
        ensures
            self.keys_view().len() == self.vals_view().len(),
    {
    }

    /// An empty cache.
    pub fn new() -> (r: VsaCache)
        ensures
            r.wf(),
            r.spec_len() == 0,
            forall|k: Seq<LitV>| !(#[trigger] r.has_key(k)),
            cache_vsas_wf(&r),
    {
        proof {
            broadcast use vstd::std_specs::hash::axiom_u64_obeys_hash_table_key_model;

        }
        let r = VsaCache { keys: Vec::new(), vals: Vec::new(), index: HashMapWithView::new() };
        proof {
            assert(r.keys_view().len() == 0);
            assert(r.vals_view().len() == 0);
        }
        r
    }

    /// How many entries the cache holds.
    pub fn len(&self) -> (r: usize)
        ensures
            r == self.spec_len(),
    {
        self.keys.len()
    }

    /// The entry at position `i`, in insertion order.
    pub fn entry_at(&self, i: usize) -> (r: (&Vec<Lit>, &Rc<VSA>))
        requires
            self.wf(),
            i < self.spec_len(),
        ensures
            lits_view(*r.0) == self.keys_view()[i as int],
            **r.1 == self.vals_view()[i as int],
    {
        (&self.keys[i], &self.vals[i])
    }

    /// The space stored under `key`, if any.
    pub fn get(&self, key: &Vec<Lit>) -> (r: Option<&Rc<VSA>>)
        requires
            self.wf(),
        ensures
            match r {
                Some(v) => self.spec_get(lits_view(*key)) == Some(**v),
                None => !self.has_key(lits_view(*key)),
            },
    {
        let h = fp_of_key(key);
        let bucket = self.index.get(&h);
        match bucket {
            Some(bucket) => {
                let mut j: usize = 0;
                while j < bucket.len()
                    invariant
                        j <= bucket.len(),
                        self.index@.contains_key(h),
                        bucket == self.index@[h],
                        forall|jj: int|
                            0 <= jj < j ==> self.keys_view()[#[trigger] bucket@[jj] as int]
                                != lits_view(*key),
                    decreases bucket.len() - j,
                {
                    let pos = bucket[j];
                    if key_eq(&self.keys[pos], key) {
                        proof {
                            assert(self.keys_view()[pos as int] == lits_view(*key));
                            assert(self.has_key(lits_view(*key)));
                            let w = self.idx_of(lits_view(*key));
                            assert(self.keys_view()[w] == lits_view(*key));
                            if w != pos as int {
                                assert(false);
                            }
                            assert(self.idx_of(lits_view(*key)) == pos as int);
                            assert(self.vals_view()[pos as int] == *self.vals@[pos as int]);
                            assert(self.spec_get(lits_view(*key)) == Some(
                                self.vals_view()[pos as int],
                            ));
                        }
                        return Some(&self.vals[pos]);
                    }
                    j = j + 1;
                }
                proof {
                    lemma_vec_len_bound(&self.keys);
                    if self.has_key(lits_view(*key)) {
                        let w = self.idx_of(lits_view(*key));
                        assert(self.keys_view()[w] == lits_view(*key));
                        assert(self.index@.contains_key(fp_key(self.keys_view()[w])));
                        assert(fp_key(self.keys_view()[w]) == h);
                        assert(self.index@[h]@.contains(w as usize));
                        let jj = choose|jj: int|
                            0 <= jj < self.index@[h]@.len() && self.index@[h]@[jj] == w as usize;
                        assert(self.keys_view()[#[trigger] bucket@[jj] as int] != lits_view(
                            *key,
                        ));
                    }
                }
                None
            },
            None => {
                proof {
                    if self.has_key(lits_view(*key)) {
                        let w = self.idx_of(lits_view(*key));
                        assert(self.index@.contains_key(fp_key(self.keys_view()[w])));
                    }
                }
                None
            },
        }
    }


    /// Stores `val` under `key`, merging by union with any space already
    /// stored there: afterwards the key is present, a fresh key's entry
    /// is exactly `val`, and an existing entry becomes the union of the
    /// old space and `val`, every other entry untouched.
    pub fn upsert_unify(&mut self, key: Vec<Lit>, val: Rc<VSA>)
        requires
            old(self).wf(),
            cache_vsas_wf(old(self)),
            crate::vsa::wf_vsa(*val),
        ensures
            final(self).wf(),
            cache_vsas_wf(final(self)),
            final(self).has_key(lits_view(key)),
            !old(self).has_key(lits_view(key)) ==> final(self).keys_view() == old(
                self,
            ).keys_view().push(lits_view(key)) && final(self).vals_view() == old(
                self,
            ).vals_view().push(*val),
            old(self).has_key(lits_view(key)) ==> final(self).keys_view() == old(
                self,
            ).keys_view() && final(self).vals_view().len() == old(self).vals_view().len() && (
            forall|t: int|
                0 <= t < old(self).vals_view().len() && t != old(self).idx_of(lits_view(key))
                    ==> #[trigger] final(self).vals_view()[t] == old(self).vals_view()[t]) && (
            forall|p: ASTV|
                #[trigger] vsa_contains(
                    final(self).vals_view()[old(self).idx_of(lits_view(key))],
                    p,
                ) <==> (vsa_contains(
                    old(self).vals_view()[old(self).idx_of(lits_view(key))],
                    p,
                ) || vsa_contains(*val, p))),
            forall|gi: LitV|
                (#[trigger] cache_consistent(old(self), gi) && lits_view(key).len() == 1
                    && space_consistent(*val, gi, lits_view(key)[0])) ==> cache_consistent(
                    final(self),
                    gi,
                ),
    {
        let ghost kview = lits_view(key);
        let h = fp_of_key(&key);
        let bucket = self.index.get(&h);
        let mut hit: Option<usize> = None;
        match bucket {
            Some(bucket) => {
                let mut j: usize = 0;
                while j < bucket.len()
                    invariant
                        j <= bucket.len(),
                        self.index@.contains_key(h),
                        bucket == self.index@[h],
                        hit matches Some(p) ==> p < self.keys@.len() && self.keys_view()[
                            p as int
                        ] == lits_view(key),
                        hit is None ==> forall|jj: int|
                            0 <= jj < j ==> self.keys_view()[#[trigger] bucket@[jj] as int]
                                != kview,
                    decreases bucket.len() - j,
                {
                    let pos = bucket[j];
                    if key_eq(&self.keys[pos], &key) {
                        hit = Some(pos);
                        break;
                    }
                    j = j + 1;
                }
                proof {
                    lemma_vec_len_bound(&self.keys);
                    if hit is None && self.has_key(kview) {
                        let w = self.idx_of(kview);
                        assert(self.keys_view()[w] == kview);
                        assert(self.index@.contains_key(fp_key(self.keys_view()[w])));
                        assert(fp_key(self.keys_view()[w]) == h);
                        assert(self.index@[h]@.contains(w as usize));
                        let jj = choose|jj: int|
                            0 <= jj < self.index@[h]@.len() && self.index@[h]@[jj] == w as usize;
                        assert(self.keys_view()[#[trigger] bucket@[jj] as int] != kview);
                    }
                }
            },
            None => {
                proof {
                    if self.has_key(kview) {
                        let w = self.idx_of(kview);
                        assert(self.index@.contains_key(fp_key(self.keys_view()[w])));
                    }
                }
            },
        }
        match hit {
            Some(pos) => {
                proof {
                    assert(old(self).has_key(kview));
                    let w = old(self).idx_of(kview);
                    assert(old(self).keys_view()[w] == kview);
                    if w != pos as int {
                        assert(false);
                    }
                }
                let prev = crate::vsa::rc_dup(&self.vals[pos]);
                proof {
                    assert(crate::vsa::wf_vsa(old(self).vals_view()[pos as int]));
                    assert(*prev == old(self).vals_view()[pos as int]);
                }
                let m = VSA::unify(prev, val);
                let ghost mv = m;
                proof {
                    assert(crate::vsa::wf_vsa(mv));
                }
                let merged = Rc::new(m);
                self.vals.remove(pos);
                self.vals.insert(pos, merged);
                proof {
                    assert(self.keys@ == old(self).keys@);
                    assert(self.vals@ =~= old(self).vals@.update(pos as int, merged));
                    assert(self.keys_view() =~= old(self).keys_view());
                    assert(self.vals_view() =~= old(self).vals_view().update(pos as int, mv));
                    assert(self.wf());
                    assert(self.keys_view()[pos as int] == kview);
                    assert(self.has_key(kview));
                    assert forall|i: int|
                        0 <= i < self.vals_view().len() implies crate::vsa::wf_vsa(
                        #[trigger] self.vals_view()[i],
                    ) by {
                        if i != pos {
                            assert(self.vals_view()[i] == old(self).vals_view()[i]);
                        }
                    }
                    assert forall|gi: LitV|
                        (#[trigger] cache_consistent(old(self), gi) && lits_view(key).len() == 1
                            && space_consistent(*val, gi, lits_view(key)[0]))
                        implies cache_consistent(self, gi) by {
                        assert forall|t: int|
                            0 <= t < self.keys_view().len() implies ((
                            #[trigger] self.keys_view()[t]).len() == 1 && space_consistent(
                            self.vals_view()[t],
                            gi,
                            self.keys_view()[t][0],
                        )) by {
                            assert(self.keys_view()[t] == old(self).keys_view()[t]);
                            if t == pos {
                                assert(old(self).keys_view()[t] == lits_view(key));
                                assert(space_consistent(
                                    old(self).vals_view()[t],
                                    gi,
                                    lits_view(key)[0],
                                ));
                                assert forall|p: ASTV| #[trigger]
                                    vsa_contains(mv, p) implies (eval_ast(p, gi) matches Some(
                                        vv,
                                    ) && answers_goal(vv, lits_view(key)[0], gi)) by {
                                    assert(vsa_contains(old(self).vals_view()[t], p)
                                        || vsa_contains(*val, p));
                                }
                            } else {
                                assert(self.vals_view()[t] == old(self).vals_view()[t]);
                            }
                        }
                    }
                }
            },
            None => {
                let ghost kv = lits_view(key);
                proof {
                    assert(!old(self).has_key(kv));
                }
                let added = self.try_insert(key, val);
                proof {
                    assert(added);
                    assert(self.keys_view()[self.keys_view().len() - 1] == kv);
                    assert(self.has_key(kv));
                    assert forall|i: int|
                        0 <= i < self.vals_view().len() implies crate::vsa::wf_vsa(
                        #[trigger] self.vals_view()[i],
                    ) by {
                        if added && i < old(self).vals_view().len() {
                            assert(self.vals_view()[i] == old(self).vals_view()[i]);
                        }
                    }
                    assert forall|gi: LitV|
                        (#[trigger] cache_consistent(old(self), gi) && kv.len() == 1
                            && space_consistent(*val, gi, kv[0])) implies cache_consistent(
                        self,
                        gi,
                    ) by {
                        assert forall|t: int|
                            0 <= t < self.keys_view().len() implies ((
                            #[trigger] self.keys_view()[t]).len() == 1 && space_consistent(
                            self.vals_view()[t],
                            gi,
                            self.keys_view()[t][0],
                        )) by {
                            if added {
                                if t < old(self).keys_view().len() {
                                    assert(self.keys_view()[t] == old(self).keys_view()[t]);
                                    assert(self.vals_view()[t] == old(self).vals_view()[t]);
                                } else {
                                    assert(self.keys_view()[t] == kv);
                                    assert(self.vals_view()[t] == *val);
                                }
                            } else {
                                assert(self.keys_view()[t] == old(self).keys_view()[t]);
                                assert(self.vals_view()[t] == old(self).vals_view()[t]);
                            }
                        }
                    }
                }
            },
        }
    }

    /// Stores `val` under `key` if the key is new; reports whether it
    /// was stored. An existing entry is never replaced.
    pub fn try_insert(&mut self, key: Vec<Lit>, val: Rc<VSA>) -> (added: bool)
        requires
            old(self).wf(),
        ensures
            final(self).wf(),
            added == !old(self).has_key(lits_view(key)),
            !added ==> *final(self) == *old(self),
            added ==> final(self).keys_view() == old(self).keys_view().push(lits_view(key))
                && final(self).vals_view() == old(self).vals_view().push(*val),
    {
        let ghost kv = lits_view(key);
        let present = match self.get(&key) {
            Some(_) => true,
            None => false,
        };
        if present {
            return false;
        }
        let h = fp_of_key(&key);
        let pos = self.keys.len();
        let mut bucket: Vec<usize> = Vec::new();
        let existing = self.index.get(&h);
        match existing {
            Some(b) => {
                let mut j: usize = 0;
                while j < b.len()
                    invariant
                        j <= b.len(),
                        self.index@.contains_key(h),
                        b == self.index@[h],
                        bucket@ == self.index@[h]@.subrange(0, j as int),
                    decreases b.len() - j,
                {
                    bucket.push(b[j]);
                    proof {
                        assert(bucket@ =~= self.index@[h]@.subrange(0, j + 1));
                    }
                    j = j + 1;
                }
                proof {
                    assert(bucket@ =~= self.index@[h]@);
                }
            },
            None => {},
        }
        bucket.push(pos);
        let ghost old_index = self.index@;
        self.keys.push(key);
        self.vals.push(val);
        self.index.insert(h, bucket);
        proof {
            assert(self.keys_view() =~= old(self).keys_view().push(kv));
            assert(self.vals_view() =~= old(self).vals_view().push(*val));
            let n = old(self).keys_view().len() as int;
            assert forall|i: int, j: int|
                0 <= i < j < self.keys_view().len() implies #[trigger] self.keys_view()[i]
                != #[trigger] self.keys_view()[j] by {
                if j == n {
                    if self.keys_view()[i] == kv {
                        assert(old(self).keys_view()[i] == kv);
                        assert(old(self).has_key(kv));
                    }
                }
            }
            assert forall|hh: u64, j: int|
                self.index@.contains_key(hh) && 0 <= j < self.index@[hh]@.len() implies #[trigger] self.index@[hh]@[j] < self.keys_view().len() && fp_key(
                self.keys_view()[self.index@[hh]@[j] as int],
            ) == hh by {
                if hh == h {
                    if j < self.index@[hh]@.len() - 1 {
                        assert(old_index.contains_key(h));
                        assert(self.index@[hh]@[j] == old_index[h]@[j]);
                        assert(old(self).keys_view()[old_index[h]@[j] as int] == self.keys_view()[old_index[h]@[j] as int]);
                    } else {
                        assert(self.index@[hh]@[j] == pos);
                        assert(fp_key(kv) == h);
                    }
                } else {
                    assert(old_index.contains_key(hh));
                    assert(old_index[hh] == self.index@[hh]);
                    assert(old(self).keys_view()[old_index[hh]@[j] as int] == self.keys_view()[old_index[hh]@[j] as int]);
                }
            }
            assert forall|i: int| 0 <= i < self.keys_view().len() implies self.index@.contains_key(
                #[trigger] fp_key(self.keys_view()[i]),
            ) && self.index@[fp_key(self.keys_view()[i])]@.contains(i as usize) by {
                if i < n {
                    assert(self.keys_view()[i] == old(self).keys_view()[i]);
                    let hi = fp_key(old(self).keys_view()[i]);
                    assert(old_index.contains_key(hi));
                    if hi == h {
                        let jj = choose|jj: int|
                            0 <= jj < old_index[h]@.len() && old_index[h]@[jj] == i as usize;
                        assert(self.index@[h]@[jj] == i as usize);
                        assert(self.index@[h]@.contains(i as usize));
                    } else {
                        assert(self.index@[hi] == old_index[hi]);
                    }
                } else {
                    assert(self.keys_view()[i] == kv);
                    assert(fp_key(kv) == h);
                    assert(self.index@[h]@[self.index@[h]@.len() - 1] == pos);
                    assert(self.index@[h]@.contains(pos));
                }
            }
        }
        true
    }
}

} // verus!
