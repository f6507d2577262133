//! Replication of a tree between processes: the server-side service that
//! exposes a tree over a connection, and the client-side mirror that caches
//! the replicated root.
use crate::entry::Entry;
use crate::entry::EntryId;
use crate::snapshot::entry_equal;
use vstd::prelude::*;

verus! {

/// The server-side adapter for one connection. The connection starts from an
/// empty placeholder state and is owed exactly one update: the fully
/// populated root, delivered once the tree's population signal resolves.
pub struct TreeService {
    /// Whether the single full-snapshot update has been delivered.
    pub delivered: bool,
}

impl TreeService {
    /// A service for a fresh connection; its one update is still owed.
    pub fn new() -> (s: TreeService)
        ensures
            !s.delivered,
    {
        TreeService { delivered: false }
    }

    /// The connection's initial state: an empty placeholder directory
    /// carrying the real root's name and flags but no children, so that
    /// connection setup never waits for population.
    pub fn state(&self, root: &Entry, placeholder_id: EntryId) -> (r: Entry)
        ensures
            r is Dir,
            r.wf(),
            r.spec_id() == placeholder_id,
            r.spec_name() == root.spec_name(),
            r.spec_symlink() == root.spec_symlink(),
            r.spec_ignored() == root.spec_ignored(),
            r.spec_children() == Seq::<Entry>::empty(),
    {
        Entry::dir(placeholder_id, root.name().clone(), root.is_symlink(), root.is_ignored())
    }

    /// Poll for the connection's one update. `populated` is whether the
    /// tree's population signal has resolved. Yields nothing while
    /// population is pending, the full root exactly once when it resolves,
    /// and nothing ever after.
    pub fn poll_update(&mut self, populated: bool, root: &Entry) -> (r: Option<Entry>)
        ensures
            (r is Some) == (!old(self).delivered && populated),
            final(self).delivered == (old(self).delivered || populated),
            match r {
                Some(u) => entry_equal(u, *root),
                None => true,
            },
    {
        if !self.delivered && populated {
            self.delivered = true;
            Some(root.deep_clone())
        } else {
            None
        }
    }
}

/// The client-side mirror: a read-only replica that caches the latest root
/// received from the service and never mutates it locally.
pub struct RemoteTree {
    /// The latest snapshot received: first the placeholder state fetched at
    /// connection time, then the fully populated root once it arrives.
    pub root: Entry,
}

impl RemoteTree {
    /// A mirror holding the initial state fetched at connection time.
    pub fn new(initial: Entry) -> (t: RemoteTree)
        ensures
            t.root == initial,
    {
        RemoteTree { root: initial }
    }

    /// The latest cached snapshot; returns immediately.
    pub fn root(&self) -> (r: Entry)
        ensures
            entry_equal(r, self.root),
    {
        self.root.deep_clone()
    }

    /// Replace the cache with a newly received root. Callers notify their
    /// local subscribers after each replacement.
    pub fn apply_update(&mut self, new_root: Entry)
        ensures
            final(self).root == new_root,
    {
        self.root = new_root;
    }
}

} // verus!
