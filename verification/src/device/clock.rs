use vstd::prelude::*;

verus! {

/// A global cycle counter shared by every device of a simulated machine.
///
/// The counter never wraps: once it reaches `u64::MAX` it stays there.
pub struct Clock {
    tick: u64,
}

/// `a + n`, or `u64::MAX` where that sum does not fit.
pub open spec fn saturating_tick(a: u64, n: u64) -> u64 {
    if a + n > u64::MAX {
        u64::MAX
    } else {
        (a + n) as u64
    }
}

/// `a + n` for a count of cycles `n` of any size, or `u64::MAX` where that
/// sum does not fit.
pub open spec fn tick_by(a: u64, n: int) -> u64 {
    if a + n > u64::MAX {
        u64::MAX
    } else {
        (a + n) as u64
    }
}

/// Advancing the clock by `x` and then by `y` cycles advances it by `x + y`.
pub proof fn lemma_tick_by_twice(a: u64, x: int, y: int)
    requires
        x >= 0,
        y >= 0,
    ensures
        tick_by(tick_by(a, x), y) == tick_by(a, x + y),
{
}

impl View for Clock {
    type V = u64;

    closed spec fn view(&self) -> u64 {
        self.tick
    }
}

impl Clock {
    pub fn new() -> (c: Self)
        ensures
            c@ == 0,
    {
        Clock { tick: 0 }
    }

    /// Advances the clock by one cycle.
    pub fn tick(&mut self)
        ensures
            final(self)@ == saturating_tick(old(self)@, 1),
    {
        self.tick = self.tick.saturating_add(1);
    }

    /// Advances the clock by `n` cycles.
    pub fn advance(&mut self, n: u64)
        ensures
            final(self)@ == saturating_tick(old(self)@, n),
    {
        self.tick = self.tick.saturating_add(n);
    }

    pub fn curr_tick(&self) -> (t: u64)
        ensures
            t == self@,
    {
        self.tick
    }

    /// Sets the clock back to cycle zero.
    pub fn reset(&mut self)
        ensures
            final(self)@ == 0,
    {
        self.tick = 0;
    }
}

} // verus!
