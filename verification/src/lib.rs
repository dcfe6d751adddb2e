//! Incremental soft line-wrap layout engine.
//!
//! Given a versioned input text (rows and byte columns), this library
//! computes a second, output coordinate space in which long lines are
//! broken at word boundaries before a configured column width.  The
//! mapping between the two spaces is stored as a sequence of transforms;
//! edits to the input re-wrap only the touched rows.

pub mod input;
pub mod laws;
pub mod point;
pub mod snapshot;
pub mod summary;
pub mod transform;
pub mod wrap;
pub mod wrapper;

pub use input::{Edit, InputSnapshot};
pub use point::{InputPoint, OutputPoint, Point};
pub use snapshot::{Chunks, Snapshot};
pub use summary::TextSummary;
pub use transform::{Transform, TransformSummary};
pub use wrapper::BackgroundWrapper;
