use memory_model_sim::device::Clock;
use memory_model_sim::device::memory::{MainMemory, MainMemoryTiming, MemoryDevice};

#[test]
fn test_get_set() {
    let mut mem = MainMemory::new(32);

    mem.set(20, 42);
    assert_eq!(mem.get(20), 42);

    mem.set(3, 3);
    mem.set(17, 6);
    mem.set(30, 9);
    assert_eq!(mem.get(20), 42);
    assert_eq!(mem.get(3), 3);
    assert_eq!(mem.get(17), 6);
    assert_eq!(mem.get(30), 9);
}

#[test]
fn test_get_set_range() {
    let mut mem = MainMemory::new(32);

    mem.set_range(20, &[4, 6, 8, 10]);
    assert_eq!(mem.get_range(20, 24), vec![4, 6, 8, 10]);

    mem.set_range(17, &[50, 60, 70, 80]);
    assert_eq!(mem.get_range(17, 24), vec![50, 60, 70, 80, 6, 8, 10]);

    assert_eq!(mem.get(20), 80);
    assert_eq!(mem.get(17), 50);
    assert_eq!(mem.get(23), 10);
}

#[test]
fn test_load_store_u8() {
    let mut clock = Clock::new();
    let mut mem = MainMemory::new(32);

    mem.store_u8(20, 42, &mut clock);
    assert_eq!(mem.load_u8(20, &mut clock), 42);

    mem.store_u8(3, 3, &mut clock);
    mem.store_u8(17, 6, &mut clock);
    mem.store_u8(30, 9, &mut clock);
    assert_eq!(mem.load_u8(20, &mut clock), 42);
    assert_eq!(mem.load_u8(3, &mut clock), 3);
    assert_eq!(mem.load_u8(17, &mut clock), 6);
    assert_eq!(mem.load_u8(30, &mut clock), 9);
}

#[test]
fn test_load_store_u16_u32() {
    let mut clock = Clock::new();
    let mut mem = MainMemory::new(32);

    mem.store_u16(0, 0x1234, &mut clock);
    assert_eq!(mem.load_u16(0, &mut clock), 0x1234);
    assert_eq!(mem.load_u8(0, &mut clock), 0x34);
    assert_eq!(mem.load_u8(1, &mut clock), 0x12);

    mem.store_u32(10, 0xDEAD_BEEF, &mut clock);
    assert_eq!(mem.load_u32(10, &mut clock), 0xDEAD_BEEF);
}

#[test]
fn test_load_store_i8_i16_i32() {
    let mut clock = Clock::new();
    let mut mem = MainMemory::new(32);

    mem.store_i8(0, -1, &mut clock);
    assert_eq!(mem.load_i8(0, &mut clock), -1);
    assert_eq!(mem.load_u8(0, &mut clock), 0xFF);

    mem.store_i16(4, -0x1234, &mut clock);
    assert_eq!(mem.load_i16(4, &mut clock), -0x1234);

    mem.store_i32(8, i32::MIN, &mut clock);
    assert_eq!(mem.load_i32(8, &mut clock), i32::MIN);
    mem.store_i32(12, 0xDEAD_BEEFu32 as i32, &mut clock);
    assert_eq!(mem.load_i32(12, &mut clock), 0xDEAD_BEEFu32 as i32);
}

#[test]
fn test_timing_advances_clock() {
    let mut clock = Clock::new();
    let mut mem = MainMemory::new(32)
        .with_clock()
        .with_timing(MainMemoryTiming { load: 7, store: 11 });

    mem.store_u8(0, 1, &mut clock);
    mem.load_u8(0, &mut clock);
    mem.store_u32(4, 0xDEAD_BEEF, &mut clock);
    mem.load_i16(4, &mut clock);

    // 2 stores + 2 loads
    assert_eq!(clock.curr_tick(), 2 * 11 + 2 * 7);
}

#[test]
fn untimed_memory_leaves_the_clock_alone() {
    let mut clock = Clock::new();
    let mut mem = MainMemory::new(8);
    mem.store_u32(0, 7, &mut clock);
    let _ = mem.load_u32(0, &mut clock);
    assert_eq!(clock.curr_tick(), 0);
}

#[test]
fn length_and_emptiness_follow_the_size() {
    let mem = MainMemory::new(32);
    assert_eq!(mem.len(), 32);
    assert!(!mem.is_empty());
    assert!(MainMemory::new(0).is_empty());
}
