//! kura: a read-only knowledge-graph guardian and indexer for an Obsidian vault.

pub mod text;
pub mod model;
pub mod graph;
pub mod utf8_slice;
pub mod scan;
pub mod wikilink;
pub mod note;
pub mod rules;
pub mod checks;
pub use checks::{check, Report};
pub use graph::{Graph, Resolution, SymbolTable};
pub use model::{Finding, Note, Severity, WikiLink};
pub mod existence;
pub mod coverage;
pub mod schema;
pub mod ranked;
pub mod report;
pub mod diskref;
pub mod vault;
pub mod laws;
