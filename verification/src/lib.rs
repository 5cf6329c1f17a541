//! Paths into nested records: `pies.banana.slices[0]`, `(a | b).c`.
//!
//! A path is a sequence of segments. A segment is a field name, an array
//! index, or a group of alternative sub-paths. This crate reads the text of
//! a path, holds it in owned or borrowed form, lets it be taken apart and
//! put together, and writes it back as text.
//!
//! - [`model`] says what a path is and what its text is.
//! - [`grammar`] says which texts are paths, and [`parser`] reads them.
//! - [`segmentbuf`] and [`lookup_buf`] hold the owned form, [`segment`] and
//!   [`lookup`] the borrowed one.
//! - [`flatten`] turns a nested table into a map from paths to values.
//! - [`laws`] proves that reading and writing undo each other; the proofs
//!   rest on [`soundness`], [`completeness`] and [`digits`].

pub mod completeness;
pub mod digits;
pub mod error;
pub mod flatten;
pub mod grammar;
pub mod laws;
pub mod lookup;
pub mod lookup_buf;
pub mod model;
pub mod parser;
pub mod segment;
pub mod segmentbuf;
pub mod soundness;
pub mod text;

pub use error::{Expected, LookupError};
pub use flatten::{flatten, ConfigTree, Discoveries};
pub use lookup::Lookup;
pub use lookup_buf::LookupBuf;
pub use model::SegmentView;
pub use segment::Segment;
pub use segmentbuf::{IntoSegmentBuf, SegmentBuf};
