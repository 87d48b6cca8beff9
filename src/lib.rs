//! Library synchronization and caching engine: identity reconciliation,
//! byte-budgeted eviction cache, cache keys, snapshot file framing and
//! per-title reading progress.
pub mod assoc;
pub mod cache;
pub mod codec;
pub mod config;
pub mod entry;
pub mod error;
pub mod identity;
pub mod key;
pub mod library;
pub mod lru;
pub mod snapshot_file;
pub mod progress;
pub mod progress_cache;
pub mod scan;
pub mod sorting;
pub mod text;
pub mod title;
pub mod util;

pub use config::Config;
pub use error::{Error, Result};
pub use key::{info_json_key, progress_sum_key, sorted_entries_key, sorted_titles_key};
