//! Version-space synthesis of string-transformation programs from
//! input/output examples.
//!
//! The library enumerates a size-indexed bank of candidate programs,
//! learns per-example version spaces by inverting the operators of a
//! small string DSL, intersects them, and ranks the survivors.

pub mod bank;
pub mod cache;
pub mod display;
pub mod eval;
pub mod lang;
pub mod learn;
pub mod outmap;
pub mod search;
pub mod strutil;
pub mod vsa;

pub use bank::Bank;
pub use cache::regex_matcher;
pub use cache::Matcher;
pub use cache::RegexCache;
pub use lang::AST;
pub use lang::Fun;
pub use lang::Lit;
pub use learn::learn;
pub use outmap::VsaCache;
pub use search::bottom_up;
pub use search::sum_permutations;
pub use search::synthesize;
pub use search::top_down;
pub use search::top_down_vsa;
pub use vsa::VSA;
