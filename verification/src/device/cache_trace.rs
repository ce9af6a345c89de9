use vstd::prelude::*;

use crate::device::secdcp_memory::SecurityClass;

verus! {

/// What kind of event a cache recorded.
#[derive(Clone, Copy, Debug, PartialEq, Eq)]
pub enum CacheAccessKind {
    Load,
    Store,
    Invalidate,
    SliceReassign,
}

/// Where the data of an access came from.
#[derive(Clone, Copy, Debug, PartialEq, Eq)]
pub enum CacheAccessSource {
    L1D,
    BackCache,
    Lower,
}

/// One event a traced cache recorded: who asked, for what, whether it hit,
/// and whose line it evicted.
#[derive(Clone, Copy, Debug, PartialEq, Eq)]
pub struct CacheAccessEvent {
    pub architecture: &'static str,
    pub requester: SecurityClass,
    pub requester_pid: u32,
    pub requester_domain: u32,
    pub kind: CacheAccessKind,
    pub addr: usize,
    pub set: Option<usize>,
    pub hit: bool,
    pub source: CacheAccessSource,
    pub evicted_owner: Option<SecurityClass>,
    pub evicted_pid: Option<u32>,
    pub evicted_domain: Option<u32>,
    pub evicted_addr: Option<usize>,
    pub slice: Option<usize>,
    pub writebacks: u64,
}

/// Whether trace `after` is `before` with one event appended for an access
/// of kind `kind` at `addr`, made by class `requester`, process `pid` and
/// domain `domain` to a cache of design `architecture`: its data came from
/// the first level exactly on a hit, and a hit evicted nothing. An untraced
/// cache stays untraced.
pub open spec fn records_access(
    before: Option<Seq<CacheAccessEvent>>,
    after: Option<Seq<CacheAccessEvent>>,
    architecture: &'static str,
    requester: SecurityClass,
    pid: u32,
    domain: u32,
    kind: CacheAccessKind,
    addr: usize,
) -> bool {
    match before {
        None => after is None,
        Some(es) => match after {
            None => false,
            Some(ns) => {
                let ev = ns.last();
                &&& ns == es.push(ev)
                &&& ev.architecture == architecture
                &&& ev.requester == requester
                &&& ev.requester_pid == pid
                &&& ev.requester_domain == domain
                &&& ev.kind == kind
                &&& ev.addr == addr
                &&& ev.source == if ev.hit { CacheAccessSource::L1D } else { CacheAccessSource::Lower }
                &&& ev.hit ==> ev.evicted_owner is None && ev.evicted_pid is None && ev.evicted_domain is None
                    && ev.evicted_addr is None && ev.writebacks == 0
            },
        },
    }
}

/// Whether the newest event of a traced cache was a hit.
pub open spec fn last_access_hit(trace: Option<Seq<CacheAccessEvent>>) -> bool {
    match trace {
        Some(ns) => ns.last().hit,
        None => false,
    }
}

/// The events a cache recorded, oldest first.
pub struct CacheTrace {
    events: Vec<CacheAccessEvent>,
}

impl View for CacheTrace {
    type V = Seq<CacheAccessEvent>;

    closed spec fn view(&self) -> Seq<CacheAccessEvent> {
        self.events@
    }
}

impl CacheTrace {
    /// An empty trace, to be handed to the cache that records into it.
    pub fn new_shared() -> (t: Self)
        ensures
            t@ == Seq::<CacheAccessEvent>::empty(),
    {
        CacheTrace { events: Vec::new() }
    }

    pub fn record(&mut self, event: CacheAccessEvent)
        ensures
            final(self)@ == old(self)@.push(event),
    {
        self.events.push(event);
    }

    /// Hands over the recorded events and empties the trace.
    pub fn drain(&mut self) -> (events: Vec<CacheAccessEvent>)
        ensures
            events@ == old(self)@,
            final(self)@ == Seq::<CacheAccessEvent>::empty(),
    {
        let mut events: Vec<CacheAccessEvent> = Vec::new();
        std::mem::swap(&mut events, &mut self.events);
        events
    }
}

} // verus!
