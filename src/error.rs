use vstd::prelude::*;

verus! {

/// What the watcher reports to its callers.
#[derive(Debug, Clone)]
pub enum Error {
    /// A key pattern is not a valid regular expression.
    InvalidPattern { pattern: String, error: String },
    /// The shared watcher was initialised a second time.
    DoubleInitialWatcher,
    /// The shared watcher already has subscribers.
    ReinitializedWithSubscribers,
}

} // verus!
