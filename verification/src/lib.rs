//! Maps arbitrary values to compact integer identifiers ("symbols").
//!
//! The associations live in a [`Table`], an arena that owns every entry and
//! assigns sequential identifiers on insertion. Any type implementing
//! [`SymbolId`] may serve as the identifier; impls are provided for Rust's
//! unsigned integer types. Bidirectional lookup on top of a table is provided
//! by the [`indexing`] module through the [`indexing::Indexing`] trait, with a
//! ready-made implementation in [`indexing::HashIndexing`].

pub mod indexing;
pub mod symbol;
mod table;

pub use crate::table::{Symbol, SymbolId, Table, TableIntoIter, TableIter};
