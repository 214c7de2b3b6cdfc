//! Compiled-pattern cache: memoized regex compilation behind an
//! LRU-bounded map.
//!
//! A compiled matcher is modeled by the byte sequence of the pattern it
//! was built from; what matching returns is named, not restated, since a
//! regex engine's behaviour is a function of pattern and text alone.

#![verifier::loop_isolation(false)]

use vstd::prelude::*;
use vstd::utf8::encode_utf8;

verus! {

/// Names the success of `regex::Regex::new` on a pattern (given by the
/// UTF-8 bytes of the pattern source).
pub uninterp spec fn regex_valid(pattern: Seq<u8>) -> bool;

/// Names the match list of `regex::Regex::find_iter`: the byte ranges of
/// the successive non-overlapping leftmost matches of the regex compiled
/// from `pattern` when run on `text`, earliest first.
pub uninterp spec fn regex_matches(pattern: Seq<u8>, text: Seq<u8>) -> Seq<(usize, usize)>;

/// An empty cache contents map.
pub open spec fn empty_contents() -> Map<Seq<u8>, Seq<u8>> {
    Map::empty()
}

/// The pattern a matcher is effectively built from: the requested pattern
/// when it compiles, else the maximally permissive one-character pattern.
pub open spec fn compile_model(p: Seq<u8>) -> Seq<u8> {
    if regex_valid(p) {
        p
    } else {
        encode_utf8("."@)
    }
}

#[verifier::external_type_specification]
#[verifier::external_body]
pub struct ExRegex(regex::Regex);

/// A compiled matcher together with the pattern it was built from.
pub struct Matcher {
    pattern: String,
    re: regex::Regex,
}

impl Matcher {
    /// The UTF-8 bytes of the pattern this matcher was built from.
    pub closed spec fn pattern_bytes(&self) -> Seq<u8> {
        encode_utf8(self.pattern@)
    }

    /// Relies on `regex::Regex::new`: compiles `p`; an unparseable
    /// pattern degrades to the match-any-character pattern.
    #[verifier::external_body]
    pub fn compile(p: &str) -> (m: Matcher)
        ensures
            regex_valid(encode_utf8(p@)) ==> m.pattern_bytes() == encode_utf8(p@),
            !regex_valid(encode_utf8(p@)) ==> m.pattern_bytes() == encode_utf8("."@),
    {
        match regex::Regex::new(p) {
            Ok(re) => Matcher { pattern: p.to_string(), re },
            Err(_) => Matcher {
                pattern: String::from("."),
                re: regex::Regex::new(".").unwrap(),
            },
        }
    }

    /// Relies on `regex::Regex::find_iter`: the byte ranges of the
    /// successive non-overlapping leftmost matches, earliest first.
    #[verifier::external_body]
    pub fn find_all(&self, text: &str) -> (r: Vec<(usize, usize)>)
        ensures
            r@ == regex_matches(self.pattern_bytes(), encode_utf8(text@)),
    {
        self.re.find_iter(text).map(|m| (m.start(), m.end())).collect()
    }

    /// Relies on `regex::Regex::clone` (and `String::clone`): a copy
    /// built from the same pattern.
    #[verifier::external_body]
    pub fn dup(&self) -> (r: Matcher)
        ensures
            r.pattern_bytes() == self.pattern_bytes(),
    {
        Matcher { pattern: self.pattern.clone(), re: self.re.clone() }
    }
}

#[verifier::external_type_specification]
#[verifier::external_body]
#[verifier::reject_recursive_types(K)]
#[verifier::reject_recursive_types(V)]
#[verifier::reject_recursive_types(S)]
pub struct ExLruCache<K, V, S>(lru::LruCache<K, V, S>);

/// Names what an LRU cache of matchers holds: for each cached pattern
/// source (by its UTF-8 bytes), the pattern the stored matcher was built
/// from.
pub uninterp spec fn lru_contents(c: lru::LruCache<String, Matcher>) -> Map<Seq<u8>, Seq<u8>>;

/// Names the capacity an LRU cache of matchers was created with.
pub uninterp spec fn lru_cap(c: lru::LruCache<String, Matcher>) -> nat;

/// Relies on `lru::LruCache::new`: an empty cache of the given capacity.
#[verifier::external_body]
fn lru_new(cap: usize) -> (c: lru::LruCache<String, Matcher>)
    requires
        cap >= 1,
    ensures
        lru_contents(c) == empty_contents(),
        lru_cap(c) == cap,
{
    lru::LruCache::new(std::num::NonZeroUsize::new(cap).unwrap())
}

/// Relies on `lru::LruCache::get`: the entry stored under the key, if
/// any, handed out as a copy; only recency changes, never the contents.
/// The cache never holds more entries than its capacity.
#[verifier::external_body]
fn lru_get(c: &mut lru::LruCache<String, Matcher>, k: &str) -> (r: Option<Matcher>)
    ensures
        lru_contents(*final(c)) == lru_contents(*old(c)),
        lru_cap(*final(c)) == lru_cap(*old(c)),
        lru_contents(*final(c)).dom().finite(),
        lru_contents(*final(c)).dom().len() <= lru_cap(*final(c)),
        r matches Some(m) ==> lru_contents(*old(c)).contains_key(encode_utf8(k@))
            && m.pattern_bytes() == lru_contents(*old(c))[encode_utf8(k@)],
        r is None ==> !lru_contents(*old(c)).contains_key(encode_utf8(k@)),
{
    c.get(k).map(|m| m.dup())
}

/// Relies on `lru::LruCache::push`: stores `v` under `k`; what else the
/// cache keeps afterwards is some part of what it held before, since the
/// least-recently-used entry is evicted rather than ever letting the
/// cache outgrow its capacity.
#[verifier::external_body]
fn lru_push(c: &mut lru::LruCache<String, Matcher>, k: String, v: Matcher)
    ensures
        lru_cap(*final(c)) == lru_cap(*old(c)),
        lru_contents(*final(c)).dom().finite(),
        lru_contents(*final(c)).dom().len() <= lru_cap(*final(c)),
        lru_contents(*final(c)).contains_key(encode_utf8(k@)),
        lru_contents(*final(c))[encode_utf8(k@)] == v.pattern_bytes(),
        forall|kk: Seq<u8>| #[trigger]
            lru_contents(*final(c)).contains_key(kk) ==> kk == encode_utf8(k@) || (lru_contents(
                *old(c),
            ).contains_key(kk) && lru_contents(*final(c))[kk] == lru_contents(*old(c))[kk]),
{
    c.push(k, v);
}

/// Memoized pattern compilation, bounded by least-recently-used eviction.
pub struct RegexCache {
    inner: lru::LruCache<String, Matcher>,
}

impl RegexCache {
    /// What the cache holds: compiled pattern bytes, keyed by the bytes
    /// of the pattern source they were requested under.
    pub closed spec fn contents(&self) -> Map<Seq<u8>, Seq<u8>> {
        lru_contents(self.inner)
    }

    /// The capacity the cache was created with.
    pub closed spec fn cap(&self) -> nat {
        lru_cap(self.inner)
    }

    /// Every cached matcher is the one fresh compilation would build,
    /// and the cache never holds more entries than its capacity.
    pub open spec fn wf(&self) -> bool {
        &&& (forall|k: Seq<u8>| #[trigger]
            self.contents().contains_key(k) ==> self.contents()[k] == compile_model(k))
        &&& self.contents().dom().finite()
        &&& self.contents().dom().len() <= self.cap()
    }

    /// An empty cache with the given capacity.
    pub fn new(cap: usize) -> (c: RegexCache)
        requires
            cap >= 1,
        ensures
            c.wf(),
            c.cap() == cap,
            c.contents() == empty_contents(),
    {
        RegexCache { inner: lru_new(cap) }
    }

    /// A matcher for `p`: the cached one on a hit, a fresh compilation
    /// (recorded under eviction) on a miss. Either way the result is the
    /// matcher that fresh compilation would build.
    pub fn lookup(&mut self, p: &str) -> (m: Matcher)
        requires
            old(self).wf(),
        ensures
            final(self).wf(),
            final(self).cap() == old(self).cap(),
            m.pattern_bytes() == compile_model(encode_utf8(p@)),
    {
        let hit = lru_get(&mut self.inner, p);
        match hit {
            Some(m) => {
                proof {
                    assert(old(self).contents().contains_key(encode_utf8(p@)));
                    assert(old(self).contents()[encode_utf8(p@)] == compile_model(
                        encode_utf8(p@),
                    ));
                    assert forall|k: Seq<u8>| #[trigger]
                        self.contents().contains_key(k) implies self.contents()[k]
                        == compile_model(k) by {
                        assert(old(self).contents().contains_key(k));
                    }
                    assert(self.wf());
                }
                m
            },
            None => {
                let m = Matcher::compile(p);
                let copy = m.dup();
                let key = p.to_owned();
                proof {
                    assert(key@ == p@);
                }
                let ghost pre_push = self.contents();
                proof {
                    assert(pre_push == old(self).contents());
                }
                lru_push(&mut self.inner, key, copy);
                proof {
                    assert(self.contents()[encode_utf8(p@)] == compile_model(encode_utf8(p@)));
                    assert forall|k: Seq<u8>| #[trigger]
                        self.contents().contains_key(k) implies self.contents()[k]
                        == compile_model(k) by {
                        if k != encode_utf8(p@) {
                            assert(pre_push.contains_key(k) && self.contents()[k] == pre_push[k]);
                            assert(old(self).contents().contains_key(k));
                        }
                    }
                    assert(self.wf());
                }
                m
            },
        }
    }
}


/// A matcher for the pattern, via the cache: the memoized compilation on
/// a hit, a fresh one (recorded) on a miss.
pub fn regex_matcher(s: &String, cache: &mut RegexCache) -> (m: Matcher)
    requires
        old(cache).wf(),
    ensures
        final(cache).wf(),
        m.pattern_bytes() == compile_model(encode_utf8(s@)),
{
    cache.lookup(s.as_str())
}

} // verus!
