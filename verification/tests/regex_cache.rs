//! Tests of the compiled-pattern cache: repeated lookups behave like
//! fresh compilation, across the cache-hit and the eviction-then-
//! recompile paths, and bad patterns degrade to the permissive matcher.

use synthesizer::{regex_matcher, Matcher, RegexCache};

#[test]
fn lookup_matches_fresh_compilation() {
    let mut cache = RegexCache::new(16);
    let fresh = Matcher::compile("\\d+");
    let first = cache.lookup("\\d+");
    let second = cache.lookup("\\d+");
    let hay = "a1bc22d333";
    assert_eq!(first.find_all(hay), fresh.find_all(hay));
    assert_eq!(second.find_all(hay), fresh.find_all(hay));
}

#[test]
fn lookup_after_eviction_recompiles() {
    // capacity one: the second pattern evicts the first, and a fresh
    // lookup of the first must behave like compiling it again
    let mut cache = RegexCache::new(1);
    let a1 = cache.lookup("[a-z]");
    let _b = cache.lookup("\\d");
    let a2 = cache.lookup("[a-z]");
    let hay = "x1y2z";
    assert_eq!(a1.find_all(hay), a2.find_all(hay));
    assert_eq!(a2.find_all(hay), Matcher::compile("[a-z]").find_all(hay));
}

#[test]
fn bad_pattern_degrades_to_match_any() {
    let mut cache = RegexCache::new(4);
    let broken = cache.lookup("(");
    // the fallback matches any single character
    assert_eq!(broken.find_all("ab"), vec![(0, 1), (1, 2)]);
}

#[test]
fn regex_matcher_uses_the_cache() {
    let mut cache = RegexCache::new(4);
    let m = regex_matcher(&String::from("b"), &mut cache);
    assert_eq!(m.find_all("abcb"), vec![(1, 2), (3, 4)]);
}

#[test]
fn find_all_is_non_overlapping_leftmost() {
    let m = Matcher::compile("aa");
    assert_eq!(m.find_all("aaaa"), vec![(0, 2), (2, 4)]);
    assert_eq!(m.find_all("aaa"), vec![(0, 2)]);
}
