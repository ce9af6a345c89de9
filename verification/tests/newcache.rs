use memory_model_sim::device::Clock;
use memory_model_sim::device::cache_trace::{CacheAccessKind, CacheTrace};
use memory_model_sim::device::memory::{
    CacheTiming, InvalidationListener, MainMemory, MainMemoryTiming, MemoryDevice,
};
use memory_model_sim::device::newcache_memory::NewCacheMemory;
use memory_model_sim::device::secdcp_memory::{SecurityClass, SecurityClassControl};

#[test]
fn separate_domains_can_hold_the_same_line_independently() {
    let mut clock = Clock::new();
    let mem = MainMemory::new(256);
    let mut cache = NewCacheMemory::new(16, 1, 4, mem);

    cache.set_requester_class(SecurityClass::High);
    let _ = cache.load_u8(0, &mut clock);
    let high_idx = cache.lookup_for(SecurityClass::High, 0).unwrap();

    cache.set_requester_class(SecurityClass::Low);
    let _ = cache.load_u8(0, &mut clock);
    let low_idx = cache.lookup_for(SecurityClass::Low, 0).unwrap();

    assert_ne!(high_idx, low_idx);
}

#[test]
fn invalidation_removes_resident_line() {
    let mut clock = Clock::new();
    let mem = MainMemory::new(256);
    let mut cache = NewCacheMemory::new(16, 1, 4, mem);
    cache.set_requester_class(SecurityClass::High);
    let _ = cache.load_u8(0, &mut clock);
    assert!(cache.lookup_for(SecurityClass::High, 0).is_some());

    cache.invalidate_line(0, &mut clock);
    assert!(cache.lookup_for(SecurityClass::High, 0).is_none());
}

#[test]
fn invalidation_removes_all_rmt_copies_of_a_line() {
    let mut clock = Clock::new();
    let mem = MainMemory::new(256);
    let mut cache = NewCacheMemory::new(16, 1, 4, mem).with_seed(3);

    cache.set_requester_identity(SecurityClass::Low, 1, 1);
    let _ = cache.load_u8(0, &mut clock);
    cache.set_requester_identity(SecurityClass::High, 2, 2);
    let _ = cache.load_u8(0, &mut clock);

    cache.invalidate_line(0, &mut clock);

    assert!(cache.lookup_for_rmt(1, 0).is_none());
    assert!(cache.lookup_for_rmt(2, 0).is_none());
}

#[test]
fn clock_treats_hits_and_misses_like_l1() {
    let mut clock = Clock::new();
    let mem = MainMemory::new(256)
        .with_clock()
        .with_timing(MainMemoryTiming { load: 100, store: 100 });
    let mut cache = NewCacheMemory::new(1, 1, 4, mem)
        .with_clock()
        .with_timing(CacheTiming {
            load_hit: 4,
            load_miss: 20,
            store_hit: 4,
            store_miss: 20,
            write_back: 8,
            invalidation_send: 1,
            invalidation_apply: 1,
        });

    let _ = cache.load_u8(0, &mut clock);
    assert_eq!(clock.curr_tick(), 120);
    let _ = cache.load_u8(0, &mut clock);
    assert_eq!(clock.curr_tick(), 124);
}

#[test]
fn tag_miss_replaces_the_existing_logical_index() {
    let mut clock = Clock::new();
    let mem = MainMemory::new(2048);
    let mut cache = NewCacheMemory::new(16, 1, 4, mem).with_seed(1);

    cache.set_requester_identity(SecurityClass::Low, 1, 7);
    let _ = cache.load_u8(0, &mut clock);
    let first_idx = cache.lookup_for_rmt(7, 0).unwrap();

    // With 4 physical lines and an 8x larger LDM, 512 bytes advances
    // the logical tag while keeping the same logical index.
    let _ = cache.load_u8(512, &mut clock);
    let second_idx = cache.lookup_for_rmt(7, 512).unwrap();

    assert_eq!(first_idx, second_idx);
    assert_eq!(cache.resident_base_for_rmt(7, 0), Some(512));
}

#[test]
fn rmt_id_separates_equal_addresses_from_different_domains() {
    let mut clock = Clock::new();
    let mem = MainMemory::new(256);
    let mut cache = NewCacheMemory::new(16, 1, 4, mem).with_seed(2);

    cache.set_requester_identity(SecurityClass::Low, 1, 1);
    let _ = cache.load_u8(0, &mut clock);
    let rmt1_idx = cache.lookup_for_rmt(1, 0).unwrap();

    cache.set_requester_identity(SecurityClass::High, 2, 2);
    let _ = cache.load_u8(0, &mut clock);
    let rmt2_idx = cache.lookup_for_rmt(2, 0).unwrap();

    assert_ne!(rmt1_idx, rmt2_idx);
    assert_eq!(cache.resident_base_for_rmt(1, 0), Some(0));
    assert_eq!(cache.resident_base_for_rmt(2, 0), Some(0));
}

#[test]
fn newcache_reads_back_what_one_domain_stored() {
    let mut clock = Clock::new();
    let mem = MainMemory::new(1024);
    let mut cache = NewCacheMemory::new(8, 1, 2, mem).with_seed(5);
    for addr in 0..200usize {
        cache.store_u8(addr, (addr % 251) as u8, &mut clock);
    }
    for addr in 0..200usize {
        assert_eq!(cache.load_u8(addr, &mut clock), (addr % 251) as u8);
    }
    cache.store_u16(301, 0xBEEF, &mut clock);
    assert_eq!(cache.load_u16(301, &mut clock), 0xBEEF);
}

#[test]
fn traced_newcache_records_misses_then_hits() {
    let mut clock = Clock::new();
    let mem = MainMemory::new(256);
    let mut cache = NewCacheMemory::new(16, 1, 4, mem).with_trace(CacheTrace::new_shared());
    let _ = cache.load_u8(0, &mut clock);
    let _ = cache.load_u8(1, &mut clock);
    cache.store_u8(2, 9, &mut clock);
    let events = cache.drain_trace();
    assert_eq!(events.len(), 3);
    assert!(!events[0].hit);
    assert!(events[1].hit);
    assert!(events[2].hit);
    assert_eq!(events[2].kind, CacheAccessKind::Store);
    assert_eq!(events[0].architecture, "newcache");
    assert!(cache.drain_trace().is_empty());
}

#[test]
fn newcache_hit_costs_a_load_hit() {
    let mut clock = Clock::new();
    let mut cache = NewCacheMemory::new(8, 4, 2, MainMemory::new(1024)).with_clock();
    let _ = cache.load_u8(40, &mut clock);
    let before = clock.curr_tick();
    let _ = cache.load_u8(41, &mut clock);
    assert_eq!(clock.curr_tick() - before, 1);
}

#[test]
fn a_first_miss_into_an_empty_line_costs_the_line_read_and_the_miss() {
    let mut clock = Clock::new();
    let mem = MainMemory::new(2048)
        .with_clock()
        .with_timing(MainMemoryTiming { load: 2, store: 5 });
    let mut cache = NewCacheMemory::new(16, 1, 4, mem).with_clock().with_timing(CacheTiming {
        load_hit: 1,
        load_miss: 7,
        store_hit: 1,
        store_miss: 8,
        write_back: 0,
        invalidation_send: 0,
        invalidation_apply: 0,
    });
    cache.set_requester_class(SecurityClass::High);
    let _ = cache.load_u8(0, &mut clock);
    assert_eq!(clock.curr_tick(), 16 * 2 + 7);
    let _ = cache.load_u8(3, &mut clock);
    assert_eq!(clock.curr_tick(), 16 * 2 + 7 + 1);
}
