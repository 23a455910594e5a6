//! Durable, gap-free streams of the row changes that a storage committed.
pub mod chain_laws;
pub mod durable;
pub mod error;
pub mod finalize;
pub mod format_laws;
pub mod frontiers;
pub mod gc_laws;
pub mod history;
pub mod images;
pub mod input_laws;
pub mod load;
pub mod log;
pub mod log_laws;
pub mod manager;
pub mod operations;
pub mod outcome_laws;
pub mod path;
pub mod pending;
pub mod pins;
pub mod publish;
pub mod publish_laws;
pub mod read_laws;
pub mod reclaim;
pub mod recover;
pub mod record;
pub mod record_laws;
pub mod recovery_laws;
pub mod reopen_laws;
pub mod state_laws;
pub mod stream;
pub mod types;

pub use error::ChangeStreamError;
pub use types::{ChangeBatch, ChangeBatchInspection, ChangeStorageKind, StorageChange, StorageVersionKey};
