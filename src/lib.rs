//! Watches a process's environment variable table and hands change
//! notifications to subscribers: everything, a list of keys, or keys that
//! match a set of regular expressions.
//!
//! The library holds the decisions: the table of the last sample, the
//! difference between two samples, the registry of subscriptions and which
//! of them each change reaches, and the fold of changes into a snapshot.
//! Sampling the environment, sleeping between ticks and running the
//! background tasks is left to the caller.

mod error;
mod table;
mod changes;
mod pattern;
mod watcher;
mod laws;

pub use error::Error;
pub use table::EnvTable;
pub use pattern::{Subscribe, InterestView, KeyPattern, compile_patterns, kind_matches_key};
pub use changes::{ChangeState, ChangeView, compute_changes, lemma_no_changes_within};
pub use watcher::{EnvironmentData, EnvironmentWatcher, WatcherSlot, init_env_watcher, keep_delivered, select_changes};
pub use laws::{apply_all, lemma_single_key_snapshot, lemma_snapshot_converges};
