//! Lazily evaluated map / filter / fold pipelines over slices, folded in
//! chunks so that a cooperative host can suspend between two chunks.
//!
//! A terminal operation wraps the caller's reducer in a folder and hands it
//! down through the adapters, each of which wraps it once more, to the source.
//! The source cuts one chunk off the slice at a time and feeds it to the fused
//! folder. Between two chunks the fold is a plain value, `Step::Yield`: that is
//! where an asynchronous host yields to its scheduler.
pub mod filter;
pub mod folder;
pub mod iterator;
pub mod laws;
pub mod map;
pub mod relation;
pub mod source;

pub use filter::{Filter, FilterFolder};
pub use folder::{BasicFolder, Folder};
pub use iterator::{AsyncIterator, Pipeline, Step, BLOCK_SIZE};
pub use map::{MapFolder, Mapped};
pub use source::Iter;
