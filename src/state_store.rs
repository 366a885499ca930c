use vstd::prelude::*;
use std::collections::HashMap;
use crate::packets::{PacketHandler, STATE_NONE};

verus! {

broadcast use vstd::std_specs::hash::group_hash_axioms;

/// Protocol state of each open connection, keyed by connection identity.
pub struct StateStore {
    pub states: HashMap<u64, i32>,
}

impl StateStore {
    /// The states as a map from connection identity to state.
    pub open spec fn view(&self) -> Map<u64, i32> {
        self.states@
    }

    pub fn new() -> (r: StateStore)
        ensures
            r.view() == Map::<u64, i32>::empty(),
    {
        StateStore { states: HashMap::new() }
    }

    /// Sets the state of connection `conn`, leaving every other entry as it was.
    pub fn set_state(&mut self, conn: u64, state: i32)
        ensures
            final(self).view() == old(self).view().insert(conn, state),
    {
        self.states.insert(conn, state);
    }

    /// The state of connection `conn`, if it has one.
    pub fn get_state(&self, conn: u64) -> (r: Option<i32>)
        ensures
            self.view().contains_key(conn) ==> r == Some(self.view()[conn]),
            !self.view().contains_key(conn) ==> r is None,
    {
        match self.states.get(&conn) {
            Some(s) => Some(*s),
            None => None,
        }
    }

    /// Records the state of the connection that `handler` serves once a handshake
    /// has moved it out of NONE; leaves the store as it is before that.
    pub fn record(&mut self, conn: u64, handler: &PacketHandler)
        ensures
            handler.client_state != STATE_NONE ==> final(self).view() == old(self).view().insert(
                conn,
                handler.client_state,
            ),
            handler.client_state == STATE_NONE ==> final(self).view() == old(self).view(),
    {
        if handler.client_state != STATE_NONE {
            self.set_state(conn, handler.client_state);
        }
    }
}

/// Forgets the state of a connection that closed.
pub fn _disconnect_client(store: &mut StateStore, conn: u64)
    ensures
        final(store).view() == old(store).view().remove(conn),
{
    store.states.remove(&conn);
}

/// Setting the states of two different connections, in either order, leaves each
/// with its own state and every other connection as it was.
pub proof fn lemma_store_isolation(m: Map<u64, i32>, a: u64, sa: i32, b: u64, sb: i32)
    requires
        a != b,
    ensures
        m.insert(a, sa).insert(b, sb) == m.insert(b, sb).insert(a, sa),
        m.insert(a, sa).insert(b, sb)[a] == sa,
        m.insert(a, sa).insert(b, sb)[b] == sb,
        forall|c: u64| c != a && c != b ==> (#[trigger] m.insert(a, sa).insert(b, sb).contains_key(c)
            <==> m.contains_key(c)),
        forall|c: u64| c != a && c != b && m.contains_key(c) ==> #[trigger] m.insert(a, sa).insert(
            b,
            sb,
        )[c] == m[c],
{
    assert(m.insert(a, sa).insert(b, sb) =~= m.insert(b, sb).insert(a, sa));
}

} // verus!
