//! Everything the plugin keeps between the host's callbacks, and the one
//! place it lives: made on first use, then the same value on every use.

use vstd::prelude::*;

use crate::bridge::{Bridge, LinkView};
use crate::state::{initial_state, PluginState};
use crate::streams::SseRegistry;

verus! {

/// The plugin's state, its links to the watch apps and its open streams.
pub struct World {
    pub state: PluginState,
    pub bridge: Bridge,
    pub streams: SseRegistry,
}

/// `w` is as the plugin starts: the initial state, no links (automatic
/// reconnection on, no heartbeat timer) and no streams.
pub open spec fn fresh_world(w: World) -> bool {
    &&& w.state@ == initial_state()
    &&& w.bridge@.links == Map::<(Seq<char>, Seq<char>), LinkView>::empty()
    &&& w.bridge@.auto_reconnect
    &&& w.bridge@.heartbeat_timer is None
    &&& w.streams@.flags == Map::<Seq<char>, bool>::empty()
    &&& w.streams@.members == Set::<(Seq<char>, Seq<char>, Seq<char>)>::empty()
}

impl World {
    /// The world the plugin starts with.
    pub fn new() -> (w: Self)
        ensures
            fresh_world(w),
    {
        World { state: PluginState::new(), bridge: Bridge::new(), streams: SseRegistry::new() }
    }
}

/// The world held in `slot`, made on the first use: where the slot is
/// empty the caller gets a fresh world, else the very world that the last
/// user left there; what the caller leaves in it stays for the next use.
pub fn shared_world(slot: &mut Option<World>) -> (w: &mut World)
    ensures
        *old(slot) is None ==> fresh_world(*w),
        *old(slot) matches Some(p) ==> *w == p,
        *final(slot) == Some(*final(w)),
{
    if slot.is_none() {
        slot.insert(World::new())
    } else {
        slot.as_mut().unwrap()
    }
}

} // verus!
