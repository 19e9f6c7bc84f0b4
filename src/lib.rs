//! A tee over a seekable byte source: every byte newly reached in the source is
//! mirrored, once and in order, into a write-only sink, while callers may still
//! seek freely (backward seeks cost nothing, forward seeks copy the skipped span).

pub mod model;
pub mod stream;
pub mod tee;

pub use stream::{MemError, MemSink, MemSource, Sink, Source};
pub use tee::{SeekError, SeekFrom, ShallowTees, TeeError};
