use memory_model_sim::device::Clock;
use memory_model_sim::device::memory::{
    Cache, CacheTiming, InvalidationListener, L1Cache, L2Cache, L3Cache, MainMemory, MainMemoryTiming,
    MemoryDevice,
};

fn memory_with(size: usize, bytes: &[(usize, u8)]) -> MainMemory {
    let mut mem = MainMemory::new(size);
    for &(addr, value) in bytes {
        mem.set(addr, value);
    }
    mem
}

#[test]
fn test_l1_load_store_hit() {
    let mut clock = Clock::new();
    let mem = memory_with(256, &[(10, 42), (11, 43)]);

    let mut cache = L1Cache::new(16, 1, mem);

    assert_eq!(cache.load_u8(10, &mut clock), 42);
    assert_eq!(cache.load_u8(11, &mut clock), 43);
    cache.store_u8(10, 100, &mut clock);
    assert_eq!(cache.load_u8(10, &mut clock), 100);
    assert_eq!(cache.backing_memory().get(10), 42);
}

#[test]
fn test_l1_write_back_on_eviction() {
    let mut clock = Clock::new();
    let mem = memory_with(256, &[(0, 1), (16, 2), (32, 3), (64, 4), (128, 5)]);

    let mut cache = L1Cache::new(16, 1, mem);
    assert_eq!(cache.load_u8(0, &mut clock), 1);
    cache.store_u8(0, 10, &mut clock);
    assert_eq!(cache.load_u8(16, &mut clock), 2);
    assert_eq!(cache.load_u8(32, &mut clock), 3);
    assert_eq!(cache.load_u8(64, &mut clock), 4);
    assert_eq!(cache.backing_memory().get(0), 1);
    assert_eq!(cache.load_u8(128, &mut clock), 5);
    assert_eq!(cache.backing_memory().get(0), 10);
    assert_eq!(cache.backing_memory().get(16), 2);
}

#[test]
fn test_l1_u16_u32() {
    let mut clock = Clock::new();
    let mut mem = MainMemory::new(256);
    mem.store_u32(0, 0xDEAD_BEEF, &mut clock);
    mem.store_u32(8, 0xCAFE_BABE, &mut clock);

    let mut cache = L1Cache::new(32, 1, mem);
    assert_eq!(cache.load_u32(0, &mut clock), 0xDEAD_BEEF);
    assert_eq!(cache.load_u32(8, &mut clock), 0xCAFE_BABE);
    cache.store_u32(0, 0xCAFE_BABE, &mut clock);
    assert_eq!(cache.load_u32(0, &mut clock), 0xCAFE_BABE);
    assert_eq!(cache.backing_memory_mut().load_u32(0, &mut clock), 0xDEAD_BEEF);
    cache.load_u8(32, &mut clock);
    cache.load_u8(64, &mut clock);
    cache.load_u8(96, &mut clock);
    cache.load_u8(128, &mut clock);
    assert_eq!(cache.backing_memory_mut().load_u32(0, &mut clock), 0xCAFE_BABE);
}

#[test]
fn test_l1_i8_i16_i32() {
    let mut clock = Clock::new();
    let mut mem = MainMemory::new(256);
    let neg_hex = 0xDEAD_BEEFu32 as i32;
    mem.store_i32(0, neg_hex, &mut clock);
    mem.store_i16(8, -42, &mut clock);

    let mut cache = L1Cache::new(32, 1, mem);
    assert_eq!(cache.load_i32(0, &mut clock), neg_hex);
    assert_eq!(cache.load_i16(8, &mut clock), -42);
    cache.store_i32(0, i32::MAX, &mut clock);
    assert_eq!(cache.load_i32(0, &mut clock), i32::MAX);
    assert_eq!(cache.backing_memory_mut().load_i32(0, &mut clock), neg_hex);
    cache.load_u8(32, &mut clock);
    cache.load_u8(64, &mut clock);
    cache.load_u8(96, &mut clock);
    cache.load_u8(128, &mut clock);
    assert_eq!(cache.backing_memory_mut().load_i32(0, &mut clock), i32::MAX);
}

#[test]
fn test_l2_load_store_hit() {
    let mut clock = Clock::new();
    let mem = memory_with(256, &[(10, 42), (11, 43)]);

    let mut cache = L2Cache::new(16, 4, mem);
    assert_eq!(cache.load_u8(10, &mut clock), 42);
    assert_eq!(cache.load_u8(11, &mut clock), 43);
    cache.store_u8(10, 100, &mut clock);
    assert_eq!(cache.load_u8(10, &mut clock), 100);
    assert_eq!(cache.backing_memory().get(10), 42);
}

#[test]
fn test_l2_set_associative_eviction() {
    let mut clock = Clock::new();
    let mut mem = MainMemory::new(512);
    for (i, &addr) in [0usize, 32, 64, 96, 128, 160, 192, 224, 256].iter().enumerate() {
        mem.set(addr, i as u8 + 1);
    }

    let mut cache = L2Cache::new(16, 2, mem);
    assert_eq!(cache.load_u8(0, &mut clock), 1);
    cache.store_u8(0, 10, &mut clock);
    for &addr in &[32usize, 64, 96, 128, 160, 192, 224] {
        let _ = cache.load_u8(addr, &mut clock);
    }
    assert_eq!(cache.backing_memory().get(0), 1);
    assert_eq!(cache.load_u8(256, &mut clock), 9);
    assert_eq!(cache.backing_memory().get(0), 10);
}

#[test]
fn test_l2_write_back_on_eviction() {
    let mut clock = Clock::new();
    let mut mem = MainMemory::new(256);
    for addr in (0..128usize).step_by(16) {
        mem.set(addr, (addr / 16) as u8 + 1);
    }
    mem.set(128, 9);

    let mut cache = L2Cache::new(16, 1, mem);
    assert_eq!(cache.load_u8(0, &mut clock), 1);
    cache.store_u8(0, 10, &mut clock);
    for addr in (16..128usize).step_by(16) {
        let _ = cache.load_u8(addr, &mut clock);
    }
    assert_eq!(cache.backing_memory().get(0), 1);
    assert_eq!(cache.load_u8(128, &mut clock), 9);
    assert_eq!(cache.backing_memory().get(0), 10);
    assert_eq!(cache.backing_memory().get(16), 2);
    assert_eq!(cache.backing_memory().get(128), 9);
}

#[test]
fn test_cache_const_generic_2way() {
    let mut clock = Clock::new();
    let mem = memory_with(64, &[(0, 1), (16, 2), (32, 3)]);

    let mut cache: Cache<2, MainMemory> = Cache::new(16, 1, mem);
    assert_eq!(cache.load_u8(0, &mut clock), 1);
    cache.store_u8(0, 10, &mut clock);
    assert_eq!(cache.load_u8(16, &mut clock), 2);
    assert_eq!(cache.backing_memory().get(0), 1);
    assert_eq!(cache.load_u8(32, &mut clock), 3);
    assert_eq!(cache.backing_memory().get(0), 10);
}

#[test]
fn test_inclusive_l2_eviction_invalidates_l1() {
    let mut clock = Clock::new();
    let mut mem = MainMemory::new(512);
    mem.set(0, 1);
    for &addr in &[16usize, 32, 48, 64, 80, 96, 112, 128, 144] {
        mem.set(addr, 2);
    }

    let mut l2 = L2Cache::new(16, 1, mem);
    l2.set_invalidation_listener();
    let mut l1: Cache<8, L2Cache<MainMemory>> = Cache::new(16, 1, l2);

    assert_eq!(l1.load_u8(0, &mut clock), 1);
    for &addr in &[16usize, 32, 48, 64, 80, 96, 112] {
        let _ = l1.load_u8(addr, &mut clock);
    }
    l1.load_u8(128, &mut clock);
    l1.load_u8(144, &mut clock);

    // L2 evicted line 0 and invalidated L1, so the next load through L1 sees backing (1), not a stale copy.
    assert_eq!(l1.load_u8(0, &mut clock), 1);
    assert_eq!(l1.backing_memory().backing_memory().get(0), 1);
}

#[test]
fn test_l3_load_store() {
    let mut clock = Clock::new();
    let mut mem = MainMemory::new(1024);
    mem.store_u8(0, 100, &mut clock);
    mem.store_u32(64, 0xDEAD_BEEF, &mut clock);

    let mut l3 = L3Cache::new(64, 4, mem);
    assert_eq!(l3.load_u8(0, &mut clock), 100);
    assert_eq!(l3.load_u32(64, &mut clock), 0xDEAD_BEEF);
    l3.store_u8(0, 200, &mut clock);
    assert_eq!(l3.load_u8(0, &mut clock), 200);
    assert_eq!(l3.backing_memory().get(0), 100);
}

#[test]
fn test_cache_timing_advances_clock() {
    let mut clock = Clock::new();
    let mem = MainMemory::new(8)
        .with_clock()
        .with_timing(MainMemoryTiming { load: 20, store: 30 });
    let mut cache: Cache<1, MainMemory> = Cache::new(1, 1, mem)
        .with_clock()
        .with_timing(CacheTiming {
            load_hit: 1,
            load_miss: 3,
            store_hit: 2,
            store_miss: 4,
            write_back: 5,
            invalidation_send: 7,
            invalidation_apply: 11,
        });

    cache.load_u8(0, &mut clock); // miss: 3 + mem load 20
    cache.load_u8(0, &mut clock); // hit: 1
    cache.store_u8(0, 9, &mut clock); // hit: 2
    cache.load_u8(1, &mut clock); // miss with dirty eviction: 5 + 30 + 3 + 20

    assert_eq!(clock.curr_tick(), 84);
}

#[test]
fn test_dirty_line_writeback_on_invalidation_apply() {
    let mut clock = Clock::new();
    let mem = MainMemory::new(16);
    let mut cache: Cache<1, MainMemory> = Cache::new(1, 1, mem);

    cache.load_u8(0, &mut clock);
    cache.store_u8(0, 77, &mut clock);
    cache.invalidate_line(0, &mut clock);

    // Applying pending invalidations should flush dirty line 0.
    let _ = cache.load_u8(1, &mut clock);
    assert_eq!(cache.backing_memory().get(0), 77);
}

#[test]
fn test_u32_timing_charged_per_line_not_per_byte() {
    let mut clock = Clock::new();
    let mem = MainMemory::new(32)
        .with_clock()
        .with_timing(MainMemoryTiming { load: 0, store: 0 });
    let mut cache: Cache<2, MainMemory> = Cache::new(8, 1, mem)
        .with_clock()
        .with_timing(CacheTiming {
            load_hit: 2,
            load_miss: 5,
            store_hit: 0,
            store_miss: 0,
            write_back: 0,
            invalidation_send: 0,
            invalidation_apply: 0,
        });

    // Cold same-line u32 read should charge one miss.
    let _ = cache.load_u32(0, &mut clock);
    assert_eq!(clock.curr_tick(), 5);

    // Warm same-line u32 read should charge one hit.
    let _ = cache.load_u32(0, &mut clock);
    assert_eq!(clock.curr_tick(), 7);
}

#[test]
fn unaligned_u32_spanning_two_lines_charges_each_line() {
    let mut clock = Clock::new();
    let mem = MainMemory::new(32);
    let mut cache: Cache<2, MainMemory> = Cache::new(4, 2, mem)
        .with_clock()
        .with_timing(CacheTiming {
            load_hit: 2,
            load_miss: 5,
            store_hit: 0,
            store_miss: 0,
            write_back: 0,
            invalidation_send: 0,
            invalidation_apply: 0,
        });
    let _ = cache.load_u32(2, &mut clock);
    assert_eq!(clock.curr_tick(), 10);
}

#[test]
fn peek_reads_without_touching_the_clock() {
    let mut clock = Clock::new();
    let mem = memory_with(64, &[(5, 9)]);
    let mut cache: Cache<2, MainMemory> = Cache::new(16, 1, mem).with_clock();
    cache.store_u8(6, 4, &mut clock);
    let before = clock.curr_tick();
    assert_eq!(cache.peek_u8(5), 9);
    assert_eq!(cache.peek_u8(6), 4);
    assert_eq!(clock.curr_tick(), before);
}

#[test]
fn a_miss_in_a_full_set_evicts_the_least_recently_used_line() {
    let mut clock = Clock::new();
    let mem = MainMemory::new(64)
        .with_clock()
        .with_timing(MainMemoryTiming { load: 10, store: 0 });
    let mut cache: Cache<2, MainMemory> = Cache::new(16, 1, mem)
        .with_clock()
        .with_timing(CacheTiming {
            load_hit: 1,
            load_miss: 3,
            store_hit: 0,
            store_miss: 0,
            write_back: 0,
            invalidation_send: 0,
            invalidation_apply: 0,
        });

    cache.load_u8(0, &mut clock); // miss: 16 * 10 + 3
    cache.load_u8(16, &mut clock); // miss: 163
    cache.load_u8(0, &mut clock); // hit: 1, line 16 is now the least recently used
    assert_eq!(clock.curr_tick(), 327);
    cache.load_u8(32, &mut clock); // miss that evicts line 16
    assert_eq!(clock.curr_tick(), 490);
    cache.load_u8(0, &mut clock); // line 0 stayed: hit
    assert_eq!(clock.curr_tick(), 491);
    cache.load_u8(16, &mut clock); // line 16 left: miss
    assert_eq!(clock.curr_tick(), 654);
}

#[test]
fn an_evicted_dirty_line_reaches_the_level_below() {
    let mut clock = Clock::new();
    let mut cache: Cache<1, MainMemory> = Cache::new(8, 1, MainMemory::new(32));
    cache.store_u8(3, 42, &mut clock);
    assert_eq!(cache.backing_memory().get(3), 0);
    let _ = cache.load_u8(8, &mut clock);
    assert_eq!(cache.backing_memory().get(3), 42);
}
