use vstd::prelude::*;

use crate::device::Clock;
use crate::device::clock::saturating_tick;


mod cache;
pub(crate) mod lines;
pub(crate) mod table;
mod main_memory;


pub use cache::{Cache, CacheTiming, L1Cache, L2Cache, L3Cache, SetAssociativeCache};
pub use main_memory::{MainMemory, MainMemoryTiming};

verus! {

/// Little-endian value of the two bytes of `s` at `a`.
pub open spec fn le_u16(s: Seq<u8>, a: int) -> int {
    s[a] + 256 * s[a + 1]
}

/// Little-endian value of the four bytes of `s` at `a`.
pub open spec fn le_u32(s: Seq<u8>, a: int) -> int {
    s[a] + 256 * s[a + 1] + 65536 * s[a + 2] + 16777216 * s[a + 3]
}

/// `s` with the little-endian bytes of `n` written at `a`.
pub open spec fn put_u16(s: Seq<u8>, a: int, n: u16) -> Seq<u8> {
    s.update(a, (n % 256) as u8).update(a + 1, (n / 256) as u8)
}

/// `s` with the little-endian bytes of `n` written at `a`.
pub open spec fn put_u32(s: Seq<u8>, a: int, n: u32) -> Seq<u8> {
    s.update(a, (n % 256) as u8)
        .update(a + 1, ((n / 256) % 256) as u8)
        .update(a + 2, ((n / 65536) % 256) as u8)
        .update(a + 3, (n / 16777216) as u8)
}

/// A halfword written at `a` is read back from `a`.
pub proof fn lemma_u16_read_after_write(s: Seq<u8>, a: int, n: u16)
    requires
        0 <= a,
        a + 1 < s.len(),
    ensures
        le_u16(put_u16(s, a, n), a) == n,
        put_u16(s, a, n).len() == s.len(),
{
}

/// A word written at `a` is read back from `a`.
pub proof fn lemma_u32_read_after_write(s: Seq<u8>, a: int, n: u32)
    requires
        0 <= a,
        a + 3 < s.len(),
    ensures
        le_u32(put_u32(s, a, n), a) == n,
        put_u32(s, a, n).len() == s.len(),
{
    assert(n == (n % 256) + 256 * ((n / 256) % 256) + 65536 * ((n / 65536) % 256) + 16777216 * (n / 16777216))
        by (nonlinear_arith);
}

/// Writing a word at `a` leaves every byte outside `a..a + 4` as it was.
pub proof fn lemma_u32_write_elsewhere(s: Seq<u8>, a: int, n: u32, b: int)
    requires
        0 <= a,
        a + 3 < s.len(),
        0 <= b < s.len(),
        b < a || a + 3 < b,
    ensures
        put_u32(s, a, n)[b] == s[b],
{
}

/// Writing a halfword at `a` leaves every byte outside `a..a + 2` as it was.
pub proof fn lemma_u16_write_elsewhere(s: Seq<u8>, a: int, n: u16, b: int)
    requires
        0 <= a,
        a + 1 < s.len(),
        0 <= b < s.len(),
        b < a || a + 1 < b,
    ensures
        put_u16(s, a, n)[b] == s[b],
{
}

/// A level of a memory hierarchy: main memory or a cache in front of one.
///
/// Every access takes the shared cycle counter, which the device advances
/// by what the access costs it.
pub trait MemoryDevice: Sized {
    /// The bytes that loads through this device observe.
    spec fn view(&self) -> Seq<u8>;

    /// The internal consistency of the device.
    spec fn wf(&self) -> bool;

    /// Whether `addr` can be accessed without running past the end of memory.
    spec fn accessible(&self, addr: int) -> bool;

    /// Whether the view is an exact account of the device: loads return it
    /// and only stores change it.
    spec fn coherent(&self) -> bool;

    /// Whether the line of `addr` is held by the current requester alone.
    spec fn exclusive(&self, addr: int) -> bool;

    /// Invalidations of lines that this device evicted and that the level
    /// above it has not collected yet.
    spec fn outgoing(&self) -> Seq<usize>;

    /// What loading and what storing one byte cost, where that is a fixed
    /// number of cycles whatever the device holds; `None` where it depends
    /// on what the device holds, as a cache's cost does.
    spec fn fixed_costs(&self) -> Option<(u64, u64)>;

    proof fn lemma_accessible_in_range(&self, addr: int)
        requires
            self.wf(),
            self.accessible(addr),
        ensures
            0 <= addr < self.view().len(),
            self.view().len() <= usize::MAX,
    ;

    fn load_u8(&mut self, addr: usize, clock: &mut Clock) -> (r: u8)
        requires
            old(self).wf(),
            old(self).accessible(addr as int),
        ensures
            final(self).wf(),
            forall|b: int| #[trigger] final(self).accessible(b) == old(self).accessible(b),
            forall|b: int| old(self).exclusive(b) ==> #[trigger] final(self).exclusive(b),
            final(self).view().len() == old(self).view().len(),
            final(clock)@ >= old(clock)@,
            old(self).coherent() && old(self).exclusive(addr as int) ==> {
                &&& r == old(self).view()[addr as int]
                &&& final(self).view() == old(self).view()
                &&& final(self).coherent()
            },
            final(self).fixed_costs() == old(self).fixed_costs(),
            old(self).fixed_costs() matches Some(c) ==> final(clock)@ == saturating_tick(old(clock)@, c.0),
            old(self).fixed_costs() is Some ==> final(self).outgoing() == old(self).outgoing(),
    ;

    fn store_u8(&mut self, addr: usize, n: u8, clock: &mut Clock)
        requires
            old(self).wf(),
            old(self).accessible(addr as int),
        ensures
            final(self).wf(),
            forall|b: int| #[trigger] final(self).accessible(b) == old(self).accessible(b),
            forall|b: int| old(self).exclusive(b) ==> #[trigger] final(self).exclusive(b),
            final(self).view().len() == old(self).view().len(),
            final(clock)@ >= old(clock)@,
            old(self).coherent() && old(self).exclusive(addr as int) ==> {
                &&& final(self).view() == old(self).view().update(addr as int, n)
                &&& final(self).coherent()
            },
            final(self).fixed_costs() == old(self).fixed_costs(),
            old(self).fixed_costs() matches Some(c) ==> final(clock)@ == saturating_tick(old(clock)@, c.1),
            old(self).fixed_costs() is Some ==> final(self).outgoing() == old(self).outgoing(),
    ;

    fn load_u16(&mut self, addr: usize, clock: &mut Clock) -> (r: u16)
        requires
            old(self).wf(),
            old(self).accessible(addr as int),
            old(self).accessible(addr + 1),
        ensures
            final(self).wf(),
            forall|b: int| #[trigger] final(self).accessible(b) == old(self).accessible(b),
            forall|b: int| old(self).exclusive(b) ==> #[trigger] final(self).exclusive(b),
            final(self).view().len() == old(self).view().len(),
            final(clock)@ >= old(clock)@,
            old(self).coherent() && old(self).exclusive(addr as int) && old(self).exclusive(
                addr + 1,
            ) ==> {
                &&& r == le_u16(old(self).view(), addr as int)
                &&& final(self).view() == old(self).view()
                &&& final(self).coherent()
            },
    ;

    fn store_u16(&mut self, addr: usize, n: u16, clock: &mut Clock)
        requires
            old(self).wf(),
            old(self).accessible(addr as int),
            old(self).accessible(addr + 1),
        ensures
            final(self).wf(),
            forall|b: int| #[trigger] final(self).accessible(b) == old(self).accessible(b),
            forall|b: int| old(self).exclusive(b) ==> #[trigger] final(self).exclusive(b),
            final(self).view().len() == old(self).view().len(),
            final(clock)@ >= old(clock)@,
            old(self).coherent() && old(self).exclusive(addr as int) && old(self).exclusive(
                addr + 1,
            ) ==> {
                &&& final(self).view() == put_u16(old(self).view(), addr as int, n)
                &&& final(self).coherent()
            },
    ;

    fn load_u32(&mut self, addr: usize, clock: &mut Clock) -> (r: u32)
        requires
            old(self).wf(),
            old(self).accessible(addr as int),
            old(self).accessible(addr + 1),
            old(self).accessible(addr + 2),
            old(self).accessible(addr + 3),
        ensures
            final(self).wf(),
            forall|b: int| #[trigger] final(self).accessible(b) == old(self).accessible(b),
            forall|b: int| old(self).exclusive(b) ==> #[trigger] final(self).exclusive(b),
            final(self).view().len() == old(self).view().len(),
            final(clock)@ >= old(clock)@,
            old(self).coherent() && old(self).exclusive(addr as int) && old(self).exclusive(
                addr + 1,
            ) && old(self).exclusive(addr + 2) && old(self).exclusive(addr + 3) ==> {
                &&& r == le_u32(old(self).view(), addr as int)
                &&& final(self).view() == old(self).view()
                &&& final(self).coherent()
            },
    ;

    fn store_u32(&mut self, addr: usize, n: u32, clock: &mut Clock)
        requires
            old(self).wf(),
            old(self).accessible(addr as int),
            old(self).accessible(addr + 1),
            old(self).accessible(addr + 2),
            old(self).accessible(addr + 3),
        ensures
            final(self).wf(),
            forall|b: int| #[trigger] final(self).accessible(b) == old(self).accessible(b),
            forall|b: int| old(self).exclusive(b) ==> #[trigger] final(self).exclusive(b),
            final(self).view().len() == old(self).view().len(),
            final(clock)@ >= old(clock)@,
            old(self).coherent() && old(self).exclusive(addr as int) && old(self).exclusive(
                addr + 1,
            ) && old(self).exclusive(addr + 2) && old(self).exclusive(addr + 3) ==> {
                &&& final(self).view() == put_u32(old(self).view(), addr as int, n)
                &&& final(self).coherent()
            },
    ;

    /// Loads the byte at `addr` as a signed value.
    fn load_i8(&mut self, addr: usize, clock: &mut Clock) -> (r: i8)
        requires
            old(self).wf(),
            old(self).accessible(addr as int),
        ensures
            final(self).wf(),
            forall|b: int| #[trigger] final(self).accessible(b) == old(self).accessible(b),
            forall|b: int| old(self).exclusive(b) ==> #[trigger] final(self).exclusive(b),
            final(self).view().len() == old(self).view().len(),
            final(clock)@ >= old(clock)@,
            old(self).coherent() && old(self).exclusive(addr as int) ==> {
                &&& r == old(self).view()[addr as int] as i8
                &&& final(self).view() == old(self).view()
                &&& final(self).coherent()
            },
    {
        self.load_u8(addr, clock) as i8
    }

    /// Stores the two's-complement byte of `n` at `addr`.
    fn store_i8(&mut self, addr: usize, n: i8, clock: &mut Clock)
        requires
            old(self).wf(),
            old(self).accessible(addr as int),
        ensures
            final(self).wf(),
            forall|b: int| #[trigger] final(self).accessible(b) == old(self).accessible(b),
            forall|b: int| old(self).exclusive(b) ==> #[trigger] final(self).exclusive(b),
            final(self).view().len() == old(self).view().len(),
            final(clock)@ >= old(clock)@,
            old(self).coherent() && old(self).exclusive(addr as int) ==> {
                &&& final(self).view() == old(self).view().update(addr as int, n as u8)
                &&& final(self).coherent()
            },
    {
        self.store_u8(addr, n as u8, clock)
    }

    /// Loads the little-endian halfword at `addr` as a signed value.
    fn load_i16(&mut self, addr: usize, clock: &mut Clock) -> (r: i16)
        requires
            old(self).wf(),
            old(self).accessible(addr as int),
            old(self).accessible(addr + 1),
        ensures
            final(self).wf(),
            forall|b: int| #[trigger] final(self).accessible(b) == old(self).accessible(b),
            forall|b: int| old(self).exclusive(b) ==> #[trigger] final(self).exclusive(b),
            final(self).view().len() == old(self).view().len(),
            final(clock)@ >= old(clock)@,
            old(self).coherent() && old(self).exclusive(addr as int) && old(self).exclusive(addr + 1) ==> {
                &&& r == le_u16(old(self).view(), addr as int) as i16
                &&& final(self).view() == old(self).view()
                &&& final(self).coherent()
            },
    {
        self.load_u16(addr, clock) as i16
    }

    /// Stores the two's-complement halfword of `n` at `addr`.
    fn store_i16(&mut self, addr: usize, n: i16, clock: &mut Clock)
        requires
            old(self).wf(),
            old(self).accessible(addr as int),
            old(self).accessible(addr + 1),
        ensures
            final(self).wf(),
            forall|b: int| #[trigger] final(self).accessible(b) == old(self).accessible(b),
            forall|b: int| old(self).exclusive(b) ==> #[trigger] final(self).exclusive(b),
            final(self).view().len() == old(self).view().len(),
            final(clock)@ >= old(clock)@,
            old(self).coherent() && old(self).exclusive(addr as int) && old(self).exclusive(addr + 1) ==> {
                &&& final(self).view() == put_u16(old(self).view(), addr as int, n as u16)
                &&& final(self).coherent()
            },
    {
        self.store_u16(addr, n as u16, clock)
    }

    /// Loads the little-endian word at `addr` as a signed value.
    fn load_i32(&mut self, addr: usize, clock: &mut Clock) -> (r: i32)
        requires
            old(self).wf(),
            old(self).accessible(addr as int),
            old(self).accessible(addr + 1),
            old(self).accessible(addr + 2),
            old(self).accessible(addr + 3),
        ensures
            final(self).wf(),
            forall|b: int| #[trigger] final(self).accessible(b) == old(self).accessible(b),
            forall|b: int| old(self).exclusive(b) ==> #[trigger] final(self).exclusive(b),
            final(self).view().len() == old(self).view().len(),
            final(clock)@ >= old(clock)@,
            old(self).coherent() && old(self).exclusive(addr as int) && old(self).exclusive(addr + 1) && old(self).exclusive(addr + 2) && old(self).exclusive(addr + 3) ==> {
                &&& r == le_u32(old(self).view(), addr as int) as i32
                &&& final(self).view() == old(self).view()
                &&& final(self).coherent()
            },
    {
        self.load_u32(addr, clock) as i32
    }

    /// Stores the two's-complement word of `n` at `addr`.
    fn store_i32(&mut self, addr: usize, n: i32, clock: &mut Clock)
        requires
            old(self).wf(),
            old(self).accessible(addr as int),
            old(self).accessible(addr + 1),
            old(self).accessible(addr + 2),
            old(self).accessible(addr + 3),
        ensures
            final(self).wf(),
            forall|b: int| #[trigger] final(self).accessible(b) == old(self).accessible(b),
            forall|b: int| old(self).exclusive(b) ==> #[trigger] final(self).exclusive(b),
            final(self).view().len() == old(self).view().len(),
            final(clock)@ >= old(clock)@,
            old(self).coherent() && old(self).exclusive(addr as int) && old(self).exclusive(addr + 1) && old(self).exclusive(addr + 2) && old(self).exclusive(addr + 3) ==> {
                &&& final(self).view() == put_u32(old(self).view(), addr as int, n as u32)
                &&& final(self).coherent()
            },
    {
        self.store_u32(addr, n as u32, clock)
    }

    /// Whether some cache level of this device holds a copy of the line of `addr`.
    spec fn holds_line(&self, addr: int) -> bool;

    /// Reads a byte without touching any replacement state or the clock.
    fn peek_u8(&self, addr: usize) -> (r: u8)
        requires
            self.wf(),
            self.accessible(addr as int),
        ensures
            self.coherent() ==> r == self.view()[addr as int],
    ;

    /// Writes a byte straight into the last level (main memory), leaving
    /// every cache level untouched.
    fn store_backmost_u8(&mut self, addr: usize, n: u8, clock: &mut Clock)
        requires
            old(self).wf(),
            old(self).accessible(addr as int),
        ensures
            final(self).wf(),
            forall|b: int| #[trigger] final(self).accessible(b) == old(self).accessible(b),
            forall|b: int| #[trigger] final(self).exclusive(b) == old(self).exclusive(b),
            forall|b: int| #[trigger] final(self).holds_line(b) == old(self).holds_line(b),
            final(self).outgoing() == old(self).outgoing(),
            final(self).view().len() == old(self).view().len(),
            final(clock)@ >= old(clock)@,
            old(self).coherent() && !old(self).holds_line(addr as int) ==> {
                &&& final(self).view() == old(self).view().update(addr as int, n)
                &&& final(self).coherent()
            },
    ;

    /// Hands the level above the invalidations this device has queued for it.
    fn take_invalidations(&mut self) -> (v: Vec<usize>)
        requires
            old(self).wf(),
        ensures
            final(self).wf(),
            v@ == old(self).outgoing(),
            final(self).outgoing() == Seq::<usize>::empty(),
            final(self).view() == old(self).view(),
            forall|b: int| #[trigger] final(self).holds_line(b) == old(self).holds_line(b),
            forall|b: int| #[trigger] final(self).accessible(b) == old(self).accessible(b),
            forall|b: int| #[trigger] final(self).exclusive(b) == old(self).exclusive(b),
            old(self).coherent() ==> final(self).coherent(),
            final(self).fixed_costs() == old(self).fixed_costs(),
    ;
}

/// A device that drops a cached copy of a line when a lower level evicts it.
pub trait InvalidationListener: MemoryDevice {
    fn invalidate_line(&mut self, base_addr: usize, clock: &mut Clock)
        requires
            old(self).wf(),
        ensures
            final(self).wf(),
            forall|b: int| #[trigger] final(self).accessible(b) == old(self).accessible(b),
            forall|b: int| old(self).exclusive(b) ==> #[trigger] final(self).exclusive(b),
            final(self).view().len() == old(self).view().len(),
            final(clock)@ >= old(clock)@,
            old(self).coherent() ==> {
                &&& final(self).view() == old(self).view()
                &&& final(self).coherent()
            },
    ;
}

} // verus!
