//! Induced string rewriting, also reachable at the crate root.

pub use crate::rewriting::strings::{expression_to_paths, rule_to_induced_rules, to_string_language};
