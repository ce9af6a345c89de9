use memory_model_sim::device::Clock;
use memory_model_sim::device::cache_trace::{CacheAccessKind, CacheTrace};
use memory_model_sim::device::memory::{CacheTiming, MainMemory, MainMemoryTiming, MemoryDevice};
use memory_model_sim::device::secdcp_memory::{SecurityClass, SecurityClassControl};
use memory_model_sim::device::smtcache_memory::SmtCacheMemory;

#[test]
fn different_domains_do_not_evict_each_other() {
    let mut clock = Clock::new();
    let mut cache = SmtCacheMemory::new(64, 1, 1, 2, MainMemory::new(4096));

    cache.set_requester_class(SecurityClass::High);
    let _ = cache.load_u8(0, &mut clock);
    cache.set_requester_class(SecurityClass::Low);
    let _ = cache.load_u8(64, &mut clock);
    cache.set_requester_class(SecurityClass::High);

    let trace = CacheTrace::new_shared();
    let mut cache = SmtCacheMemory::new(64, 1, 1, 2, MainMemory::new(4096)).with_trace(trace);
    cache.set_requester_class(SecurityClass::High);
    let _ = cache.load_u8(0, &mut clock);
    cache.set_requester_class(SecurityClass::Low);
    let _ = cache.load_u8(64, &mut clock);
    cache.set_requester_class(SecurityClass::High);
    let _ = cache.load_u8(0, &mut clock);

    let events = cache.drain_trace();
    assert!(events.last().is_some_and(|event| event.hit));
}

#[test]
fn a_third_class_takes_the_least_recently_used_slice() {
    let mut clock = Clock::new();
    let mut cache = SmtCacheMemory::new(64, 1, 1, 1, MainMemory::new(4096)).with_trace(CacheTrace::new_shared());
    cache.set_requester_class(SecurityClass::High);
    cache.store_u8(0, 7, &mut clock);
    cache.set_requester_class(SecurityClass::Low);
    assert_eq!(cache.load_u8(0, &mut clock), 7);
    assert_eq!(cache.slice_owner(0), Some(SecurityClass::Low));
    let events = cache.drain_trace();
    assert!(events.iter().any(|e| e.kind == CacheAccessKind::SliceReassign && e.writebacks == 1));
}

#[test]
fn smtcache_reads_back_what_it_stored() {
    let mut clock = Clock::new();
    let mut cache = SmtCacheMemory::new(8, 2, 2, 2, MainMemory::new(1024));
    for addr in 0..128usize {
        cache.store_u8(addr, (addr * 7) as u8, &mut clock);
    }
    for addr in 0..128usize {
        assert_eq!(cache.load_u8(addr, &mut clock), (addr * 7) as u8);
    }
}

#[test]
fn smtcache_hit_costs_a_load_hit() {
    let mut clock = Clock::new();
    let mut cache = SmtCacheMemory::new(8, 4, 2, 2, MainMemory::new(1024)).with_clock();
    let _ = cache.load_u8(40, &mut clock);
    let before = clock.curr_tick();
    let _ = cache.load_u8(41, &mut clock);
    assert_eq!(clock.curr_tick() - before, 1);
}

#[test]
fn a_miss_with_an_empty_way_costs_the_line_read_and_the_miss() {
    let mut clock = Clock::new();
    let mem = MainMemory::new(4096)
        .with_clock()
        .with_timing(MainMemoryTiming { load: 2, store: 3 });
    let mut cache = SmtCacheMemory::new(64, 1, 2, 2, mem).with_clock().with_timing(CacheTiming {
        load_hit: 1,
        load_miss: 5,
        store_hit: 1,
        store_miss: 7,
        write_back: 0,
        invalidation_send: 0,
        invalidation_apply: 0,
    });
    cache.set_requester_class(SecurityClass::High);
    let _ = cache.load_u8(0, &mut clock);
    assert_eq!(clock.curr_tick(), 64 * 2 + 5);
    let _ = cache.load_u8(0, &mut clock);
    assert_eq!(clock.curr_tick(), 64 * 2 + 5 + 1);
    cache.store_u8(64, 1, &mut clock);
    assert_eq!(clock.curr_tick(), 64 * 2 + 5 + 1 + 64 * 2 + 7);
}
