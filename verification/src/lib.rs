//! Lowering of pattern matching.
mod adapters;
pub mod context;
pub mod diagnostic;
pub mod diagnostic_utils;
pub mod enum_laws;
pub mod enum_match;
pub mod lowered;
pub mod match_arms;
pub mod match_expr;
pub mod match_groups;
pub mod semantic;
pub mod syntax;
pub mod tuple_expr;
pub mod tuple_laws;
pub mod tuple_match;
pub mod tuple_tree;
pub mod value_laws;
pub mod value_match;
pub mod variant_match_tree;
pub mod variants_map;
