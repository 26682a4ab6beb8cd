//! A read-only, arena-backed markup tree with cursor navigation, text
//! collection and predicate-driven queries.

pub mod document;
pub mod node;
pub mod predicate;
pub mod selection;

pub use document::Document;
pub use node::{Data, Node, Raw};
pub use predicate::Predicate;
pub use selection::Selection;
