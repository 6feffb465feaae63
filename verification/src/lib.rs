//! Flattens JSON-like trees into rows, records, columns and typed columnar
//! batches, and extracts named sub-trees, the frames, from the same trees.
//!
//! - [`value`]: the tree value model, and the mathematical tree that the
//!   contracts are stated over.
//! - [`host`]: conversion of a host's native tree into the model.
//! - [`path`]: paths, the column names made from them, and the name cache.
//! - [`flatten`]: the normalization engine, from a tree to flat rows.
//! - [`columnar`]: rows as records and as columns.
//! - [`numeric`]: integers as decimal text and as binary64 bits.
//! - [`typed`]: column type detection and typed, null-aware columns.
//! - [`walker`]: a depth-first walk with a visitor.
//! - [`extract`]: frame extraction, a visitor of the walk.
//!
//! Every function is verified against its contract. Floating-point numbers
//! are carried as the 64 bits of their binary64 encoding and never computed
//! with.

pub mod columnar;
pub mod extract;
pub mod flatten;
pub mod host;
pub mod numeric;
pub mod path;
pub mod typed;
pub mod value;
pub mod walker;

pub use crate::columnar::{normalize, normalize_columnar, normalize_columnar_batch, TableError};
pub use crate::extract::extract_frames;
pub use crate::flatten::{normalize_value, NormalizeOpts};
pub use crate::host::{py_to_value, HostValue};
pub use crate::path::NameCache;
pub use crate::typed::{normalize_arrow_batch, ColumnType, TypedBatch, TypedColumn};
pub use crate::value::{JsonPath, Row, Value};
pub use crate::walker::{walk, JsonVisitor, VisitorAction};
