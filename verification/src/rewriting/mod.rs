//! Term rewriting: pattern matching, rules, direct rewriting, unification and e-graphs.

pub mod abelian;
pub mod direct;
pub mod egraph;
pub mod matching;
pub mod reachability;
pub mod rule;
pub mod strings;
pub mod system;
pub mod unification;
