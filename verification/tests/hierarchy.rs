use memory_model_sim::device::Clock;
use memory_model_sim::device::memory::{
    CacheTiming, MainMemory, MainMemoryTiming, MemoryDevice, SetAssociativeCache,
};

type ThreeLevels = SetAssociativeCache<SetAssociativeCache<SetAssociativeCache<MainMemory>>>;

fn three_levels() -> ThreeLevels {
    let mem = MainMemory::new(1024);
    let l3 = SetAssociativeCache::new(1, 1, 16, mem);
    let mut l2 = SetAssociativeCache::new(1, 1, 8, l3);
    // L3 is non-inclusive, so only L2 reports its evictions to L1.
    l2.set_invalidation_listener();
    SetAssociativeCache::new(1, 1, 4, l2)
}

#[test]
fn test_three_level_writeback_eventually_reaches_main_memory() {
    let mut clock = Clock::new();
    let mut l1 = three_levels();

    l1.store_u8(0, 0xAB, &mut clock);
    assert_eq!(l1.backing_memory().backing_memory().backing_memory().get(0), 0);

    // Force enough unique lines to evict line 0 from L1, then L2, then L3.
    for addr in 1..40 {
        let _ = l1.load_u8(addr, &mut clock);
    }

    assert_eq!(l1.backing_memory().backing_memory().backing_memory().get(0), 0xAB);
}

#[test]
fn test_three_level_hierarchy_reads_latest_after_eviction_chain() {
    let mut clock = Clock::new();
    let mut l1 = three_levels();

    l1.store_u8(0, 0x5A, &mut clock);
    for addr in 1..40 {
        let _ = l1.load_u8(addr, &mut clock);
    }

    // Value should be observable through full hierarchy after writeback propagation.
    assert_eq!(l1.load_u8(0, &mut clock), 0x5A);
    assert_eq!(l1.backing_memory_mut().load_u8(0, &mut clock), 0x5A);
    assert_eq!(l1.backing_memory_mut().backing_memory_mut().load_u8(0, &mut clock), 0x5A);
    assert_eq!(l1.backing_memory().backing_memory().backing_memory().get(0), 0x5A);
}

#[test]
fn test_clock_accumulates_across_l1_l2_l3_main_memory() {
    let mut clock = Clock::new();
    let mem = MainMemory::new(16)
        .with_clock()
        .with_timing(MainMemoryTiming { load: 100, store: 100 });
    let l3 = SetAssociativeCache::new(1, 1, 16, mem).with_clock().with_timing(CacheTiming {
        load_hit: 3,
        load_miss: 30,
        store_hit: 3,
        store_miss: 30,
        write_back: 7,
        invalidation_send: 1,
        invalidation_apply: 1,
    });
    let mut l2 = SetAssociativeCache::new(1, 1, 8, l3).with_clock().with_timing(CacheTiming {
        load_hit: 2,
        load_miss: 20,
        store_hit: 2,
        store_miss: 20,
        write_back: 5,
        invalidation_send: 1,
        invalidation_apply: 1,
    });
    l2.set_invalidation_listener();
    let mut l1 = SetAssociativeCache::new(1, 1, 4, l2).with_clock().with_timing(CacheTiming {
        load_hit: 1,
        load_miss: 10,
        store_hit: 1,
        store_miss: 10,
        write_back: 3,
        invalidation_send: 1,
        invalidation_apply: 1,
    });

    // First access is a cold miss through all levels:
    // L1 miss (10) + L2 miss (20) + L3 miss (30) + main memory load (100) = 160
    let _ = l1.load_u8(0, &mut clock);
    assert_eq!(clock.curr_tick(), 160);

    // Second access hits in L1 only (+1).
    let _ = l1.load_u8(0, &mut clock);
    assert_eq!(clock.curr_tick(), 161);
}

#[test]
fn test_non_inclusive_l3_eviction_does_not_invalidate_l2() {
    let mut clock = Clock::new();
    let mem = MainMemory::new(1024);
    let l3 = SetAssociativeCache::new(1, 1, 16, mem);
    let mut l2 = SetAssociativeCache::new(1, 1, 8, l3);

    // Intentionally no l3 -> l2 invalidation wiring (non-inclusive L3).
    assert_eq!(l2.load_u8(0, &mut clock), 0);
    l2.store_u8(0, 0xCC, &mut clock);
    assert_eq!(l2.load_u8(0, &mut clock), 0xCC);

    // Evict line 0 from L3 by touching many unique lines directly through L3.
    for addr in 1..20 {
        let _ = l2.backing_memory_mut().load_u8(addr, &mut clock);
    }

    // L2 should still retain its dirty line even if L3 evicted the same address.
    assert_eq!(l2.load_u8(0, &mut clock), 0xCC);
    // Main memory is still old value because L2 has not been forced to write back yet.
    assert_eq!(l2.backing_memory().backing_memory().get(0), 0);
}

#[test]
fn test_invalidation_is_line_granular_not_byte_granular() {
    let mut clock = Clock::new();
    // Small 1-way caches to make eviction deterministic.
    let mut mem = MainMemory::new(128);
    mem.set(7, 1);
    let mut l2 = SetAssociativeCache::new(16, 1, 1, mem);
    l2.set_invalidation_listener();
    let mut l1 = SetAssociativeCache::new(16, 1, 1, l2);

    // Bring line base 0 into L1/L2.
    assert_eq!(l1.load_u8(7, &mut clock), 1);

    // Mutate backing memory directly at another byte in same line.
    l1.backing_memory_mut().backing_memory_mut().store_u8(7, 2, &mut clock);

    // Evict line base 0 from L2 by touching a different line base (16),
    // which should invalidate the entire line in L1.
    let _ = l1.backing_memory_mut().load_u8(16, &mut clock);

    // Reload from L1: should miss and fetch fresh value (2), proving line-level invalidation.
    assert_eq!(l1.load_u8(7, &mut clock), 2);
}
