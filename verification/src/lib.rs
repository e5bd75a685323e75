//! An interpreter core for the untyped lambda calculus.
//!
//! Terms are parsed from text into a tree over bare (human-readable) names,
//! converted into a collision-free representation whose binders carry
//! globally-unique tags, beta-reduced under a choice of evaluation
//! strategies, and converted back to bare names for display.

pub mod ast;
pub mod index;
pub mod laws;
pub mod names;
pub mod parser;
pub mod reduce;
pub mod uid;

pub use ast::abs;
pub use ast::app;
pub use ast::BareIdent;
pub use ast::BareTerm;
pub use ast::Fresh;
pub use ast::ReduceStrategy;

pub use index::from_bare;
pub use index::NameMap;
pub use index::TagMap;

pub use parser::parse;
pub use parser::ParseError;

pub use uid::Term;
pub use uid::UIDGenerator;
pub use uid::UID;
