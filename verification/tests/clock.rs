use memory_model_sim::device::Clock;

#[test]
fn test_tick() {
    let mut clock = Clock::new();
    assert_eq!(clock.curr_tick(), 0);

    clock.tick();
    assert_eq!(clock.curr_tick(), 1);

    clock.tick();
    clock.tick();
    clock.tick();
    assert_eq!(clock.curr_tick(), 4);
}

#[test]
fn test_advance() {
    let mut clock = Clock::new();
    assert_eq!(clock.curr_tick(), 0);

    clock.advance(7);
    assert_eq!(clock.curr_tick(), 7);

    clock.advance(3);
    assert_eq!(clock.curr_tick(), 10);
}

#[test]
fn clock_saturates_at_its_largest_value() {
    let mut clock = Clock::new();
    clock.advance(u64::MAX - 1);
    clock.advance(5);
    assert_eq!(clock.curr_tick(), u64::MAX);
    clock.tick();
    assert_eq!(clock.curr_tick(), u64::MAX);
}

#[test]
fn reset_returns_the_clock_to_zero() {
    let mut clock = Clock::new();
    clock.advance(42);
    clock.reset();
    assert_eq!(clock.curr_tick(), 0);
}
