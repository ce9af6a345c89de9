use memory_model_sim::device::Clock;
use memory_model_sim::device::memory::{CacheTiming, MainMemory, MainMemoryTiming, MemoryDevice};
use memory_model_sim::machine::{MemoryModel, RiscV32IntegerMachine};
use memory_model_sim::runtime::run_flat_binary_bytes;
use memory_model_sim::device::secdcp_memory::{SecDcpMemory, SecDcpPolicy, SecurityClass, SecurityClassControl};

#[test]
fn public_demand_can_grow_partition_but_high_demand_cannot() {
    let mut clock = Clock::new();
    let mut cache = SecDcpMemory::new(1, 1, 4, MainMemory::new(64)).with_policy(SecDcpPolicy {
        epoch_public_accesses: 4,
        increase_threshold: 500_000,
        decrease_threshold: 0,
        min_high_ways: 1,
        min_low_ways: 1,
    });

    cache.set_requester_class(SecurityClass::High);
    for addr in 0..4 {
        let _ = cache.load_u8(addr, &mut clock);
    }
    assert_eq!(cache.public_ways(), 1);

    cache.set_requester_class(SecurityClass::Low);
    for addr in 16..20 {
        let _ = cache.load_u8(addr, &mut clock);
    }
    assert_eq!(cache.public_ways(), 2);
}

#[test]
fn shrinking_public_partition_flushes_only_low_owned_lines() {
    let mut clock = Clock::new();
    let mut cache = SecDcpMemory::new(1, 1, 4, MainMemory::new(64));

    cache.force_public_ways(2, &mut clock);
    cache.set_requester_class(SecurityClass::Low);
    cache.store_u8(0, 0xAA, &mut clock);
    cache.store_u8(1, 0xBB, &mut clock);
    assert_eq!(cache.line_owner(0, 0), Some(SecurityClass::Low));
    assert_eq!(cache.line_owner(0, 1), Some(SecurityClass::Low));

    cache.set_requester_class(SecurityClass::High);
    let _ = cache.load_u8(2, &mut clock);
    assert_eq!(cache.line_owner(0, 2), Some(SecurityClass::High));

    cache.force_public_ways(1, &mut clock);

    assert_eq!(cache.backing_memory().peek_u8(1), 0xBB);
    assert_eq!(cache.line_owner(0, 1), None);
    assert_eq!(cache.line_owner(0, 2), Some(SecurityClass::High));
}

#[test]
fn default_policy_values() {
    let p = SecDcpPolicy::default();
    assert_eq!(p.epoch_public_accesses, 256);
    assert_eq!(p.increase_threshold, 600_000);
    assert_eq!(p.decrease_threshold, 100_000);
    assert_eq!(p.min_high_ways, 1);
    assert_eq!(p.min_low_ways, 1);
}

#[test]
fn secdcp_reads_back_what_each_class_stored() {
    let mut clock = Clock::new();
    let mut cache = SecDcpMemory::new(8, 4, 4, MainMemory::new(1024));
    for class in [SecurityClass::High, SecurityClass::Low] {
        cache.set_requester_class(class);
        for addr in 0..256usize {
            cache.store_u8(addr, (addr * 3) as u8, &mut clock);
        }
        for addr in 0..256usize {
            assert_eq!(cache.load_u8(addr, &mut clock), (addr * 3) as u8);
        }
    }
    assert_eq!(cache.load_u32(4, &mut clock), u32::from_le_bytes([12, 15, 18, 21]));
}

#[test]
fn low_miss_rate_below_threshold_shrinks_partition() {
    let mut clock = Clock::new();
    let mut cache = SecDcpMemory::new(1, 1, 4, MainMemory::new(64)).with_policy(SecDcpPolicy {
        epoch_public_accesses: 4,
        increase_threshold: 900_000,
        decrease_threshold: 500_000,
        min_high_ways: 1,
        min_low_ways: 1,
    });
    cache.force_public_ways(3, &mut clock);
    cache.set_requester_class(SecurityClass::Low);
    cache.store_u8(5, 9, &mut clock);
    for _ in 0..3 {
        let _ = cache.load_u8(5, &mut clock);
    }
    assert_eq!(cache.public_ways(), 2);
    assert_eq!(cache.load_u8(5, &mut clock), 9);
}

#[test]
fn machine_runs_on_secdcp_memory() {
    let mut machine = RiscV32IntegerMachine::with_memory_model(MemoryModel::SecDcp);
    let exit = run_flat_binary_bytes(&mut machine, &0x0010_0073u32.to_le_bytes());
    assert_eq!(exit, 0);
}

#[test]
fn secdcp_hit_costs_a_load_hit() {
    let mut clock = Clock::new();
    let mut cache = SecDcpMemory::new(8, 4, 4, MainMemory::new(1024)).with_clock();
    let _ = cache.load_u8(16, &mut clock);
    let before = clock.curr_tick();
    let _ = cache.load_u8(17, &mut clock);
    assert_eq!(clock.curr_tick() - before, 1);
    cache.store_u8(18, 5, &mut clock);
    assert_eq!(clock.curr_tick() - before, 2);
}

#[test]
fn a_high_miss_with_an_empty_way_costs_the_line_read_and_the_miss() {
    let mut clock = Clock::new();
    let mem = MainMemory::new(256)
        .with_clock()
        .with_timing(MainMemoryTiming { load: 3, store: 4 });
    let mut cache = SecDcpMemory::new(8, 1, 4, mem).with_clock().with_timing(CacheTiming {
        load_hit: 1,
        load_miss: 6,
        store_hit: 1,
        store_miss: 9,
        write_back: 0,
        invalidation_send: 0,
        invalidation_apply: 0,
    });
    cache.set_requester_class(SecurityClass::High);
    let _ = cache.load_u8(0, &mut clock);
    assert_eq!(clock.curr_tick(), 8 * 3 + 6);
    let _ = cache.load_u8(1, &mut clock);
    assert_eq!(clock.curr_tick(), 8 * 3 + 6 + 1);
}
