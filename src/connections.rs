//! The registry of open connections: a send handle per connection identifier.

use vstd::prelude::*;
use std::collections::HashMap;

verus! {

broadcast use vstd::std_specs::hash::group_hash_axioms;

/// The handles of the connections that are open, by identifier.
///
/// `H` is whatever the transport delivers messages through.
pub struct ConnectionRegistry<H> {
    handles: HashMap<u64, H>,
}

impl<H> View for ConnectionRegistry<H> {
    type V = Map<u64, H>;

    closed spec fn view(&self) -> Map<u64, H> {
        self.handles@
    }
}

impl<H> ConnectionRegistry<H> {
    pub fn new() -> (r: ConnectionRegistry<H>)
        ensures
            r@ == Map::<u64, H>::empty(),
    {
        ConnectionRegistry { handles: HashMap::new() }
    }

    /// Registers `handle` under `id`, in place of any earlier one.
    pub fn on_connect(&mut self, id: u64, handle: H)
        ensures
            final(self)@ == old(self)@.insert(id, handle),
    {
        self.handles.insert(id, handle);
    }

    /// Forgets the handle of `id`, if there is one.
    pub fn on_disconnect(&mut self, id: u64)
        ensures
            final(self)@ == old(self)@.remove(id),
    {
        self.handles.remove(&id);
    }

    /// The handle to deliver to `id` through, or `None` where it is gone.
    pub fn get(&self, id: u64) -> (r: Option<&H>)
        ensures
            match r {
                Some(h) => self@.contains_key(id) && *h == self@[id],
                None => !self@.contains_key(id),
            },
    {
        self.handles.get(&id)
    }

    pub fn is_connected(&self, id: u64) -> (r: bool)
        ensures
            r == self@.contains_key(id),
    {
        self.handles.contains_key(&id)
    }
}

} // verus!
