//! The ordered table of shared, loaded signals, keyed by signal identity.

use std::collections::BTreeMap;
use std::collections::BTreeSet;
use std::sync::Arc;
use vstd::prelude::*;
use crate::signal::Signal;

verus! {

broadcast use {vstd::laws_cmp::group_laws_cmp, vstd::std_specs::btree::group_btree_axioms};

/// A second handle to a shared signal. It wraps `Arc::clone`, which hands out
/// a new reference to the same allocation: the handle returned points at the
/// very signal that `signal` points at.
#[verifier::external_body]
pub(crate) fn share(signal: &Arc<Signal>) -> (r: Arc<Signal>)
    ensures
        r == *signal,
{
    Arc::clone(signal)
}

/// Loaded signals by identity. Each identity holds at most one signal.
pub struct SignalTable {
    entries: BTreeMap<usize, Arc<Signal>>,
}

impl View for SignalTable {
    type V = Map<usize, Arc<Signal>>;

    closed spec fn view(&self) -> Map<usize, Arc<Signal>> {
        self.entries@
    }
}

impl SignalTable {
    /// An empty table.
    pub fn new() -> (r: Self)
        ensures
            r@ == Map::<usize, Arc<Signal>>::empty(),
    {
        SignalTable { entries: BTreeMap::new() }
    }

    /// The signal held under `id`, shared with the table.
    pub fn get(&self, id: usize) -> (r: Option<Arc<Signal>>)
        ensures
            r == if self@.contains_key(id) {
                Some(self@[id])
            } else {
                None
            },
    {
        match self.entries.get(&id) {
            Some(signal) => Some(share(signal)),
            None => None,
        }
    }

    /// Whether a signal is held under `id`.
    pub fn contains(&self, id: usize) -> (r: bool)
        ensures
            r == self@.contains_key(id),
    {
        self.entries.contains_key(&id)
    }

    /// Puts `signal` under `id`, in place of what was there.
    pub fn insert(&mut self, id: usize, signal: Arc<Signal>)
        ensures
            final(self)@ == old(self)@.insert(id, signal),
    {
        self.entries.insert(id, signal);
    }

    /// Drops what is held under `id`, if anything.
    pub fn remove(&mut self, id: usize)
        ensures
            final(self)@ == old(self)@.remove(id),
    {
        self.entries.remove(&id);
    }

    /// Drops every signal.
    pub fn clear(&mut self)
        ensures
            final(self)@ == Map::<usize, Arc<Signal>>::empty(),
    {
        self.entries.clear();
    }
}

/// A set of signal identities.
pub struct IdSet {
    ids: BTreeSet<usize>,
}

impl View for IdSet {
    type V = Set<usize>;

    closed spec fn view(&self) -> Set<usize> {
        self.ids@
    }
}

impl IdSet {
    /// The empty set.
    pub fn new() -> (r: Self)
        ensures
            r@ == Set::<usize>::empty(),
    {
        IdSet { ids: BTreeSet::new() }
    }

    /// Adds `id` and says whether it was new to the set.
    pub fn insert(&mut self, id: usize) -> (r: bool)
        ensures
            final(self)@ == old(self)@.insert(id),
            r == !old(self)@.contains(id),
    {
        self.ids.insert(id)
    }
}

} // verus!
