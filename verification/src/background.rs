//! The background execution bridge, engine side.
//!
//! Handlers may move their continuation onto a worker thread and later call
//! back into the host. Such a callback first acquires the host's single
//! global execution lock (the embedding program does the blocking and the
//! timeout), and every host operation issued through the scope is tagged for
//! replication and access-control-checked against the user the invoking
//! library is associated with - or runs as internal work when there is none.
//! This module holds the decision the bridge carries across threads: on
//! whose authority the callback runs.

use vstd::prelude::*;

verus! {

/// What a background continuation carries back to the host: the user whose
/// permissions its host calls must be checked against, or `None` for
/// internal work.
pub struct BackgroundRunCtx {
    pub user: Option<String>,
}

impl BackgroundRunCtx {
    /// A bridge context running on behalf of `user` (`None` = internal).
    pub fn new(user: Option<String>) -> (r: BackgroundRunCtx)
        ensures
            r.user == user,
    {
        BackgroundRunCtx { user }
    }

    /// Whether host calls from this context must be authenticated before
    /// they run; internal work is not.
    pub fn needs_authentication(&self) -> (r: bool)
        ensures
            r == (self.user is Some),
    {
        self.user.is_some()
    }
}

} // verus!
