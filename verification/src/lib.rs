//! Knowledge base and query engine for a GPU instruction-set reference.
//!
//! The compile-time half extracts instruction and special-register records
//! from vendor markup documents, normalizes and merges them across
//! architecture generations, and compresses mechanically-named register
//! families into range descriptors.  The run-time half loads the compiled
//! knowledge base into a name-indexed table and resolves raw tokens
//! (possibly carrying an encoding-variant suffix) to records, for use by an
//! editor-assistance layer.

pub mod architecture;
pub mod encoding;
pub mod extract;
pub mod formatting;
pub mod index;
pub mod merge;
pub mod query;
pub mod model;
pub mod operand;
pub mod registers;
pub mod strlib;
pub mod text_utils;
pub mod types;
