use vstd::prelude::*;

use crate::device::{Clock, ContextSwitchListener};
use crate::device::backcache_memory::BackCacheMemory;
use crate::device::cache_trace::CacheAccessEvent;
use crate::device::memory::{MainMemory, MemoryDevice, SetAssociativeCache};
use crate::device::newcache_memory::NewCacheMemory;
use crate::device::secdcp_memory::{SecurityClass, SecurityClassControl};
use crate::device::smtcache_memory::SmtCacheMemory;
use crate::device::secdcp_memory::SecDcpMemory;
use crate::machine::MemoryModel;

verus! {

/// Second and third cache levels over main memory, shared by every model.
pub type SharedLevels = SetAssociativeCache<SetAssociativeCache<MainMemory>>;

/// A complete memory hierarchy, one variant per first-level design.
pub enum MemorySystem {
    Default(SetAssociativeCache<SharedLevels>),
    BackCache(BackCacheMemory<SharedLevels>),
    NewCache(NewCacheMemory<SharedLevels>),
    SmtCache(SmtCacheMemory<SharedLevels>),
    SecDcp(SecDcpMemory<SharedLevels>),
}

impl MemorySystem {
    /// Whether all requesters share one copy of every cached line, so that
    /// who requests an access does not change what it observes.
    pub open spec fn single_domain(&self) -> bool {
        self.kind() is Default || self.kind() is BackCache
    }

    /// Which design the first level follows.
    pub open spec fn kind(&self) -> MemoryModel {
        match self {
            MemorySystem::Default(_) => MemoryModel::Default,
            MemorySystem::BackCache(_) => MemoryModel::BackCache,
            MemorySystem::NewCache(_) => MemoryModel::NewCache,
            MemorySystem::SmtCache(_) => MemoryModel::SmtCache,
            MemorySystem::SecDcp(_) => MemoryModel::SecDcp,
        }
    }

    /// The class that the first level attributes the accesses that follow
    /// to, for the designs that tell requesters apart.
    pub open spec fn requester_class(&self) -> Option<SecurityClass> {
        match self {
            MemorySystem::Default(_) => None,
            MemorySystem::BackCache(_) => None,
            MemorySystem::NewCache(m) => Some(m.requester_class()),
            MemorySystem::SmtCache(m) => Some(m.requester_class()),
            MemorySystem::SecDcp(m) => Some(m.requester_class()),
        }
    }

    /// The process and domain that the first level attributes the accesses
    /// that follow to, for the designs that record them.
    pub open spec fn requester_ids(&self) -> Option<(u32, u32)> {
        match self {
            MemorySystem::NewCache(m) => Some((m.requester_pid(), m.requester_domain())),
            MemorySystem::SmtCache(m) => Some((m.requester_pid(), m.requester_domain())),
            _ => None,
        }
    }

    /// Attributes the accesses that follow to process `pid` of domain
    /// `domain`, whose class is `class`.
    pub fn set_requester_identity(&mut self, class: SecurityClass, pid: u32, domain: u32)
        ensures
            final(self).requester_class() == if old(self).single_domain() {
                None
            } else {
                Some(class)
            },
            final(self).requester_ids() == if old(self).kind() is NewCache || old(self).kind() is SmtCache {
                Some((pid, domain))
            } else {
                None::<(u32, u32)>
            },
            final(self).kind() == old(self).kind(),
            final(self).wf() == old(self).wf(),
            final(self).view() == old(self).view(),
            forall|b: int| #[trigger] final(self).accessible(b) == old(self).accessible(b),
            forall|b: int| #[trigger] final(self).holds_line(b) == old(self).holds_line(b),
            old(self).single_domain() ==> *final(self) == *old(self),
    {
        match self {
            MemorySystem::Default(_) => {},
            MemorySystem::BackCache(_) => {},
            MemorySystem::NewCache(m) => m.set_requester_identity(class, pid, domain),
            MemorySystem::SmtCache(m) => m.set_requester_identity(class, pid, domain),
            MemorySystem::SecDcp(m) => m.set_requester_class(class),
        }
    }

    /// For a backup buffer that holds the line starting at `b`: whether its
    /// slot is enabled and whether the line was hit since it entered.
    pub open spec fn backup_line(&self, b: int) -> Option<(bool, bool)> {
        match self {
            MemorySystem::BackCache(m) => m.backup_line(b),
            _ => None,
        }
    }

    /// Tells the first level that another program runs from now on: a
    /// backup buffer forgets which of its lines were hit.
    pub fn notify_context_switch(&mut self)
        requires
            old(self).wf(),
        ensures
            forall|b: int| #[trigger] final(self).backup_line(b) == match old(self).backup_line(b) {
                Some(e) => Some((e.0, false)),
                None => None,
            },
            final(self).wf(),
            final(self).kind() == old(self).kind(),
            final(self).view() == old(self).view(),
            old(self).coherent() ==> final(self).coherent(),
            forall|b: int| #[trigger] final(self).accessible(b) == old(self).accessible(b),
            forall|b: int| #[trigger] final(self).holds_line(b) == old(self).holds_line(b),
            !(old(self).kind() is BackCache) ==> *final(self) == *old(self),
    {
        match self {
            MemorySystem::BackCache(m) => m.on_context_switch(),
            _ => {},
        }
    }

    /// The accesses that the first level has traced and not yet handed
    /// over; none for a level that does not trace.
    pub open spec fn trace_events(&self) -> Seq<CacheAccessEvent> {
        match self {
            MemorySystem::NewCache(m) => match m.trace_spec() {
                Some(e) => e,
                None => Seq::<CacheAccessEvent>::empty(),
            },
            MemorySystem::SmtCache(m) => match m.trace_spec() {
                Some(e) => e,
                None => Seq::<CacheAccessEvent>::empty(),
            },
            _ => Seq::<CacheAccessEvent>::empty(),
        }
    }

    /// Hands over what the first level has traced so far, if it traces.
    pub fn drain_trace(&mut self) -> (events: Vec<CacheAccessEvent>)
        ensures
            events@ == old(self).trace_events(),
            final(self).trace_events() == Seq::<CacheAccessEvent>::empty(),
            final(self).kind() == old(self).kind(),
            final(self).wf() == old(self).wf(),
            final(self).view() == old(self).view(),
            final(self).coherent() == old(self).coherent(),
            forall|b: int| #[trigger] final(self).accessible(b) == old(self).accessible(b),
            forall|b: int| #[trigger] final(self).holds_line(b) == old(self).holds_line(b),
            old(self).kind() is NewCache ==> match *old(self) {
                MemorySystem::NewCache(m) => events@ == match m.trace_spec() {
                    Some(e) => e,
                    None => Seq::<CacheAccessEvent>::empty(),
                },
                _ => true,
            },
            old(self).kind() is SmtCache ==> match *old(self) {
                MemorySystem::SmtCache(m) => events@ == match m.trace_spec() {
                    Some(e) => e,
                    None => Seq::<CacheAccessEvent>::empty(),
                },
                _ => true,
            },
            old(self).single_domain() ==> events@.len() == 0 && *final(self) == *old(self),
    {
        match self {
            MemorySystem::NewCache(m) => m.drain_trace(),
            MemorySystem::SmtCache(m) => m.drain_trace(),
            _ => Vec::new(),
        }
    }
}

impl MemoryDevice for MemorySystem {
    open spec fn view(&self) -> Seq<u8> {
        match self {
            MemorySystem::Default(m) => m.view(),
            MemorySystem::BackCache(m) => m.view(),
            MemorySystem::NewCache(m) => m.view(),
            MemorySystem::SmtCache(m) => m.view(),
            MemorySystem::SecDcp(m) => m.view(),
        }
    }

    open spec fn wf(&self) -> bool {
        match self {
            MemorySystem::Default(m) => m.wf(),
            MemorySystem::BackCache(m) => m.wf(),
            MemorySystem::NewCache(m) => m.wf(),
            MemorySystem::SmtCache(m) => m.wf(),
            MemorySystem::SecDcp(m) => m.wf(),
        }
    }

    open spec fn coherent(&self) -> bool {
        match self {
            MemorySystem::Default(m) => m.coherent(),
            MemorySystem::BackCache(m) => m.coherent(),
            MemorySystem::NewCache(m) => m.coherent(),
            MemorySystem::SmtCache(m) => m.coherent(),
            MemorySystem::SecDcp(m) => m.coherent(),
        }
    }

    open spec fn accessible(&self, addr: int) -> bool {
        match self {
            MemorySystem::Default(m) => m.accessible(addr),
            MemorySystem::BackCache(m) => m.accessible(addr),
            MemorySystem::NewCache(m) => m.accessible(addr),
            MemorySystem::SmtCache(m) => m.accessible(addr),
            MemorySystem::SecDcp(m) => m.accessible(addr),
        }
    }

    open spec fn exclusive(&self, addr: int) -> bool {
        match self {
            MemorySystem::Default(m) => m.exclusive(addr),
            MemorySystem::BackCache(m) => m.exclusive(addr),
            MemorySystem::NewCache(m) => m.exclusive(addr),
            MemorySystem::SmtCache(m) => m.exclusive(addr),
            MemorySystem::SecDcp(m) => m.exclusive(addr),
        }
    }

    open spec fn holds_line(&self, addr: int) -> bool {
        match self {
            MemorySystem::Default(m) => m.holds_line(addr),
            MemorySystem::BackCache(m) => m.holds_line(addr),
            MemorySystem::NewCache(m) => m.holds_line(addr),
            MemorySystem::SmtCache(m) => m.holds_line(addr),
            MemorySystem::SecDcp(m) => m.holds_line(addr),
        }
    }

    open spec fn outgoing(&self) -> Seq<usize> {
        match self {
            MemorySystem::Default(m) => m.outgoing(),
            MemorySystem::BackCache(m) => m.outgoing(),
            MemorySystem::NewCache(m) => m.outgoing(),
            MemorySystem::SmtCache(m) => m.outgoing(),
            MemorySystem::SecDcp(m) => m.outgoing(),
        }
    }

    open spec fn fixed_costs(&self) -> Option<(u64, u64)> {
        None
    }

    proof fn lemma_accessible_in_range(&self, addr: int) {
        match self {
            MemorySystem::Default(m) => m.lemma_accessible_in_range(addr),
            MemorySystem::BackCache(m) => m.lemma_accessible_in_range(addr),
            MemorySystem::NewCache(m) => m.lemma_accessible_in_range(addr),
            MemorySystem::SmtCache(m) => m.lemma_accessible_in_range(addr),
            MemorySystem::SecDcp(m) => m.lemma_accessible_in_range(addr),
        }
    }

    fn load_u8(&mut self, addr: usize, clock: &mut Clock) -> (r: u8)
        ensures
            final(self).kind() == old(self).kind(),
    {
        let r = match self {
            MemorySystem::Default(m) => m.load_u8(addr, clock),
            MemorySystem::BackCache(m) => m.load_u8(addr, clock),
            MemorySystem::NewCache(m) => m.load_u8(addr, clock),
            MemorySystem::SmtCache(m) => m.load_u8(addr, clock),
            MemorySystem::SecDcp(m) => m.load_u8(addr, clock),
        };
        proof {
            assert(self.fixed_costs() == old(self).fixed_costs());
        }
        r
    }

    fn store_u8(&mut self, addr: usize, n: u8, clock: &mut Clock)
        ensures
            final(self).kind() == old(self).kind(),
    {
        match self {
            MemorySystem::Default(m) => m.store_u8(addr, n, clock),
            MemorySystem::BackCache(m) => m.store_u8(addr, n, clock),
            MemorySystem::NewCache(m) => m.store_u8(addr, n, clock),
            MemorySystem::SmtCache(m) => m.store_u8(addr, n, clock),
            MemorySystem::SecDcp(m) => m.store_u8(addr, n, clock),
        }
        proof {
            assert(self.fixed_costs() == old(self).fixed_costs());
        }
    }

    fn load_u16(&mut self, addr: usize, clock: &mut Clock) -> (r: u16)
        ensures
            final(self).kind() == old(self).kind(),
    {
        match self {
            MemorySystem::Default(m) => m.load_u16(addr, clock),
            MemorySystem::BackCache(m) => m.load_u16(addr, clock),
            MemorySystem::NewCache(m) => m.load_u16(addr, clock),
            MemorySystem::SmtCache(m) => m.load_u16(addr, clock),
            MemorySystem::SecDcp(m) => m.load_u16(addr, clock),
        }
    }

    fn store_u16(&mut self, addr: usize, n: u16, clock: &mut Clock)
        ensures
            final(self).kind() == old(self).kind(),
    {
        match self {
            MemorySystem::Default(m) => m.store_u16(addr, n, clock),
            MemorySystem::BackCache(m) => m.store_u16(addr, n, clock),
            MemorySystem::NewCache(m) => m.store_u16(addr, n, clock),
            MemorySystem::SmtCache(m) => m.store_u16(addr, n, clock),
            MemorySystem::SecDcp(m) => m.store_u16(addr, n, clock),
        }
    }

    fn load_u32(&mut self, addr: usize, clock: &mut Clock) -> (r: u32)
        ensures
            final(self).kind() == old(self).kind(),
    {
        match self {
            MemorySystem::Default(m) => m.load_u32(addr, clock),
            MemorySystem::BackCache(m) => m.load_u32(addr, clock),
            MemorySystem::NewCache(m) => m.load_u32(addr, clock),
            MemorySystem::SmtCache(m) => m.load_u32(addr, clock),
            MemorySystem::SecDcp(m) => m.load_u32(addr, clock),
        }
    }

    fn store_u32(&mut self, addr: usize, n: u32, clock: &mut Clock)
        ensures
            final(self).kind() == old(self).kind(),
    {
        match self {
            MemorySystem::Default(m) => m.store_u32(addr, n, clock),
            MemorySystem::BackCache(m) => m.store_u32(addr, n, clock),
            MemorySystem::NewCache(m) => m.store_u32(addr, n, clock),
            MemorySystem::SmtCache(m) => m.store_u32(addr, n, clock),
            MemorySystem::SecDcp(m) => m.store_u32(addr, n, clock),
        }
    }

    fn store_backmost_u8(&mut self, addr: usize, n: u8, clock: &mut Clock)
        ensures
            final(self).kind() == old(self).kind(),
    {
        match self {
            MemorySystem::Default(m) => m.store_backmost_u8(addr, n, clock),
            MemorySystem::BackCache(m) => m.store_backmost_u8(addr, n, clock),
            MemorySystem::NewCache(m) => m.store_backmost_u8(addr, n, clock),
            MemorySystem::SmtCache(m) => m.store_backmost_u8(addr, n, clock),
            MemorySystem::SecDcp(m) => m.store_backmost_u8(addr, n, clock),
        }
    }

    fn take_invalidations(&mut self) -> (v: Vec<usize>)
        ensures
            final(self).kind() == old(self).kind(),
    {
        match self {
            MemorySystem::Default(m) => m.take_invalidations(),
            MemorySystem::BackCache(m) => m.take_invalidations(),
            MemorySystem::NewCache(m) => m.take_invalidations(),
            MemorySystem::SmtCache(m) => m.take_invalidations(),
            MemorySystem::SecDcp(m) => m.take_invalidations(),
        }
    }

    fn peek_u8(&self, addr: usize) -> (r: u8) {
        match self {
            MemorySystem::Default(m) => m.peek_u8(addr),
            MemorySystem::BackCache(m) => m.peek_u8(addr),
            MemorySystem::NewCache(m) => m.peek_u8(addr),
            MemorySystem::SmtCache(m) => m.peek_u8(addr),
            MemorySystem::SecDcp(m) => m.peek_u8(addr),
        }
    }
}

} // verus!
