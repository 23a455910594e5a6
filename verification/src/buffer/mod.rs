//! The page buffer: which pages are cached, which of them may leave, and what
//! must be written before they do. Reading and writing is the caller's part:
//! the buffer says what is to be done and takes what came of it.
pub mod content_laws;
pub mod error;
pub mod frame;
pub mod frame_laws;
pub mod laws;
pub mod pool;
pub mod suffix;
pub mod undo;
pub mod undo_laws;

pub use error::BufferError;
pub use pool::{BufferPool, DEFAULT_BUFFER_POOL_SIZE};
