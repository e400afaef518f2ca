//! A small line-filtering library: given a pattern and an input text, it
//! returns every line containing the pattern, optionally ignoring case.
//!
//! The scan itself is verified: `SearchInterface::search` carries a contract
//! that pins down exactly which lines are kept, in what order, and how the
//! result lines are trimmed.

pub mod scanner;
pub mod text;

pub use scanner::SearchInterface;
pub use scanner::Searchable;
