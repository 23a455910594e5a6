//! Storage-engine core: change streams, columnar projections, page buffering
//! and the B+Tree index.
pub mod allocation_transition;
pub mod btree;
pub mod buffer;
pub mod bytes;
pub mod change_stream;
pub mod checksum;
pub mod columnar;
pub mod ids;
pub mod page;
pub mod text;
pub mod transition_laws;
pub mod value;
pub mod value_laws;
