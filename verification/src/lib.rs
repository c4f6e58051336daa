pub mod analyzer;
pub mod cache;
pub mod call_graph;
pub mod catch_clause;
pub mod char_vec;
pub mod diagnostic;
pub mod extract;
pub mod fingerprint;
pub mod fixer;
pub mod json;
pub mod line_breaks;
pub mod jsdoc;
pub mod lsp;
pub mod ordering;
pub mod parser;
pub mod propagation;
pub mod reporter;
pub mod signature_map;
pub mod sync_stability;
pub mod text;
pub mod tsserver;
pub mod types;
