use vstd::prelude::*;

pub mod backcache_memory;
pub mod cache_trace;
pub mod clock;
pub mod hierarchy;
pub mod memory;
pub mod newcache_memory;
pub mod secdcp_memory;
pub mod smtcache_memory;

pub use clock::Clock;

verus! {

/// A device that keeps per-program state which a context switch resets.
pub trait ContextSwitchListener {
    /// The internal consistency the device keeps across switches.
    spec fn listener_wf(&self) -> bool;

    fn on_context_switch(&mut self)
        requires
            old(self).listener_wf(),
        ensures
            final(self).listener_wf(),
    ;
}

} // verus!
