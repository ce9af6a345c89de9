use memory_model_sim::device::Clock;
use memory_model_sim::device::ContextSwitchListener;
use memory_model_sim::device::backcache_memory::{BackCacheMemory, BackCachePolicy};
use memory_model_sim::device::memory::{
    CacheTiming, InvalidationListener, MainMemory, MainMemoryTiming, MemoryDevice,
};

#[test]
fn backup_hit_is_charged_like_l1_hit() {
    let mut clock = Clock::new();
    let mem = MainMemory::new(256)
        .with_clock()
        .with_timing(MainMemoryTiming { load: 100, store: 100 });
    let mut cache = BackCacheMemory::new(1, 1, 1, mem)
        .with_clock()
        .with_timing(CacheTiming {
            load_hit: 4,
            load_miss: 20,
            store_hit: 4,
            store_miss: 20,
            write_back: 8,
            invalidation_send: 1,
            invalidation_apply: 1,
        })
        .with_policy(BackCachePolicy { min_enabled_lines: 1, max_enabled_lines: 1 });

    let _ = cache.load_u8(0, &mut clock);
    assert_eq!(clock.curr_tick(), 120);
    let _ = cache.load_u8(1, &mut clock);
    assert_eq!(clock.curr_tick(), 240);
    let _ = cache.load_u8(0, &mut clock);
    assert_eq!(clock.curr_tick(), 244);
}

#[test]
fn primary_eviction_enters_backup_with_used_cleared() {
    let mut clock = Clock::new();
    let mem = MainMemory::new(256);
    let mut cache = BackCacheMemory::new(1, 1, 1, mem)
        .with_policy(BackCachePolicy { min_enabled_lines: 1, max_enabled_lines: 1 });

    let _ = cache.load_u8(0, &mut clock);
    let _ = cache.load_u8(1, &mut clock);

    assert_eq!(cache.backup_line_state(0), Some((true, false)));
}

#[test]
fn context_switch_clears_backup_used_bits() {
    let mut clock = Clock::new();
    let mem = MainMemory::new(256);
    let mut cache = BackCacheMemory::new(1, 1, 2, mem)
        .with_policy(BackCachePolicy { min_enabled_lines: 2, max_enabled_lines: 2 });

    let _ = cache.load_u8(0, &mut clock);
    let _ = cache.load_u8(1, &mut clock);
    let _ = cache.load_u8(2, &mut clock);
    let _ = cache.load_u8(0, &mut clock);
    assert_eq!(cache.backup_line_state(0), Some((true, true)));

    cache.on_context_switch();
    assert_eq!(cache.backup_line_state(0), Some((true, false)));
}

#[test]
fn dynamic_resize_stays_within_policy_bounds() {
    let mut clock = Clock::new();
    let mem = MainMemory::new(256);
    let mut cache = BackCacheMemory::new(1, 1, 8, mem)
        .with_policy(BackCachePolicy { min_enabled_lines: 2, max_enabled_lines: 4 });

    assert!((2..=4).contains(&cache.enabled_lines()));
    for addr in 0..64 {
        let _ = cache.load_u8(addr, &mut clock);
        assert!((2..=4).contains(&cache.enabled_lines()));
        assert!((1..=4).contains(&cache.resize_countdown()));
    }
}

#[test]
fn lower_level_invalidation_removes_primary_and_backup_copies() {
    let mut clock = Clock::new();
    let mem = MainMemory::new(256);
    let mut cache = BackCacheMemory::new(1, 1, 1, mem)
        .with_policy(BackCachePolicy { min_enabled_lines: 1, max_enabled_lines: 1 });

    let _ = cache.load_u8(0, &mut clock);
    let _ = cache.load_u8(1, &mut clock);
    assert_eq!(cache.backup_line_state(0), Some((true, false)));

    cache.invalidate_line(0, &mut clock);
    assert_eq!(cache.backup_line_state(0), None);
}

#[test]
fn backcache_reads_back_what_it_stored() {
    let mut clock = Clock::new();
    let mem = MainMemory::new(256);
    let mut cache = BackCacheMemory::new(4, 2, 1, mem)
        .with_policy(BackCachePolicy { min_enabled_lines: 1, max_enabled_lines: 2 });
    for addr in 0..64usize {
        cache.store_u8(addr, (addr * 3) as u8, &mut clock);
    }
    for addr in 0..64usize {
        assert_eq!(cache.load_u8(addr, &mut clock), (addr * 3) as u8);
    }
    cache.store_u32(100, 0xDEAD_BEEF, &mut clock);
    assert_eq!(cache.load_u32(100, &mut clock), 0xDEAD_BEEF);
}

#[test]
fn default_policy_enables_between_its_bounds() {
    let policy = BackCachePolicy::default();
    assert_eq!(policy.min_enabled_lines, 128);
    assert_eq!(policy.max_enabled_lines, 512);
    let cache = BackCacheMemory::new(64, 64, 8, MainMemory::new(4096));
    assert_eq!(cache.enabled_lines(), 512);
}

#[test]
fn backcache_primary_hit_costs_a_load_hit() {
    let mut clock = Clock::new();
    let mut cache = BackCacheMemory::new(8, 4, 2, MainMemory::new(1024)).with_clock();
    let _ = cache.load_u8(40, &mut clock);
    assert!(cache.resize_countdown() > 1);
    let before = clock.curr_tick();
    let _ = cache.load_u8(41, &mut clock);
    assert_eq!(clock.curr_tick() - before, 1);
}

#[test]
fn invalidating_a_dirty_line_charges_its_write_back_and_the_invalidation() {
    let mut clock = Clock::new();
    let mem = MainMemory::new(256)
        .with_clock()
        .with_timing(MainMemoryTiming { load: 0, store: 10 });
    let mut cache = BackCacheMemory::new(4, 1, 1, mem)
        .with_clock()
        .with_timing(CacheTiming {
            load_hit: 0,
            load_miss: 0,
            store_hit: 0,
            store_miss: 0,
            write_back: 3,
            invalidation_send: 0,
            invalidation_apply: 5,
        })
        .with_policy(BackCachePolicy { min_enabled_lines: 1, max_enabled_lines: 1 });
    cache.store_u8(0, 9, &mut clock);
    let before = clock.curr_tick();
    cache.invalidate_line(0, &mut clock);
    assert_eq!(clock.curr_tick() - before, 4 * 10 + 3 + 5);
    assert_eq!(cache.backing_memory().get(0), 9);
}

#[test]
fn a_first_miss_costs_the_line_read_and_the_miss() {
    let mut clock = Clock::new();
    let mem = MainMemory::new(256)
        .with_clock()
        .with_timing(MainMemoryTiming { load: 10, store: 0 });
    let mut cache = BackCacheMemory::new(4, 1, 2, mem)
        .with_clock()
        .with_timing(CacheTiming {
            load_hit: 2,
            load_miss: 20,
            store_hit: 0,
            store_miss: 0,
            write_back: 0,
            invalidation_send: 0,
            invalidation_apply: 0,
        })
        .with_policy(BackCachePolicy { min_enabled_lines: 2, max_enabled_lines: 4 });
    let _ = cache.load_u8(0, &mut clock);
    assert_eq!(clock.curr_tick(), 4 * 10 + 20);
}
