use vstd::prelude::*;

use crate::device::Clock;
use crate::device::clock::saturating_tick;

use super::MemoryDevice;

verus! {

/// Cycles that main memory charges per access.
#[derive(Clone, Copy, Debug)]
pub struct MainMemoryTiming {
    pub load: u64,
    pub store: u64,
}

impl Default for MainMemoryTiming {
    fn default() -> (t: Self)
        ensures
            t.load == 100,
            t.store == 100,
    {
        MainMemoryTiming { load: 100, store: 100 }
    }
}

/// Bytes per page of main memory; a page is allocated on its first
/// nonzero write.
pub const PAGE_SIZE: usize = 4096;

/// The byte at `a` of memory held in `pages`: zero in a page never written.
pub open spec fn page_byte(pages: Seq<Vec<u8>>, a: int) -> u8 {
    let p = pages[a / PAGE_SIZE as int];
    if p@.len() == 0 {
        0
    } else {
        p@[a % PAGE_SIZE as int]
    }
}

/// A flat, zero-initialised byte array at the bottom of a memory hierarchy.
pub struct MainMemory {
    pages: Vec<Vec<u8>>,
    size: usize,
    timed: bool,
    timing: MainMemoryTiming,
}

impl MainMemory {
    /// Whether accesses charge the clock.
    pub closed spec fn is_timed(&self) -> bool {
        self.timed
    }

    pub closed spec fn timing_spec(&self) -> MainMemoryTiming {
        self.timing
    }

    /// Cycles charged by one load.
    pub open spec fn load_cost(&self) -> u64 {
        if self.is_timed() { self.timing_spec().load } else { 0 }
    }

    /// Cycles charged by one store.
    pub open spec fn store_cost(&self) -> u64 {
        if self.is_timed() { self.timing_spec().store } else { 0 }
    }

    pub fn new(size: usize) -> (m: Self)
        ensures
            m.wf(),
            m.view() == Seq::new(size as nat, |i: int| 0u8),
            !m.is_timed(),
            m.timing_spec() == (MainMemoryTiming { load: 100, store: 100 }),
    {
        let count = size / PAGE_SIZE + 1;
        let mut pages: Vec<Vec<u8>> = Vec::new();
        let mut i: usize = 0;
        while i < count
            invariant
                i <= count,
                pages@.len() == i,
                forall|k: int| 0 <= k < i ==> (#[trigger] pages@[k])@.len() == 0,
            decreases count - i,
        {
            pages.push(Vec::new());
            i = i + 1;
        }
        let m = MainMemory { pages, size, timed: false, timing: MainMemoryTiming::default() };
        proof {
            assert forall|a: int| 0 <= a < size implies #[trigger] page_byte(m.pages@, a) == 0u8 by {
                assert(0 <= a / PAGE_SIZE as int <= size as int / PAGE_SIZE as int);
            }
            assert(m.view() =~= Seq::new(size as nat, |i: int| 0u8));
        }
        m
    }

    /// The byte at `a`.
    fn byte(&self, a: usize) -> (r: u8)
        requires
            self.wf(),
            a < self.view().len(),
        ensures
            r == self.view()[a as int],
    {
        let p = a / PAGE_SIZE;
        let off = a % PAGE_SIZE;
        proof {
            assert(p <= self.size / PAGE_SIZE);
        }
        let page = &self.pages[p];
        if page.len() == 0 {
            0
        } else {
            page[off]
        }
    }

    /// Writes `v` at `a`, allocating the page if it is the first nonzero
    /// byte written there.
    fn put(&mut self, a: usize, v: u8)
        requires
            old(self).wf(),
            a < old(self).view().len(),
        ensures
            final(self).wf(),
            final(self).view() == old(self).view().update(a as int, v),
            final(self).size == old(self).size,
            final(self).timed == old(self).timed,
            final(self).timing == old(self).timing,
    {
        let p = a / PAGE_SIZE;
        let off = a % PAGE_SIZE;
        proof {
            assert(p <= self.size / PAGE_SIZE);
        }
        let ghost s0 = self.pages@;
        if self.pages[p].len() == 0 {
            if v == 0 {
                proof {
                    assert(self.view() =~= old(self).view().update(a as int, v));
                }
                return;
            }
            self.pages.set(p, vec![0u8; PAGE_SIZE]);
        }
        let ghost s1 = self.pages@;
        let mut page: Vec<u8> = Vec::new();
        self.pages.set_and_swap(p, &mut page);
        page.set(off, v);
        self.pages.set_and_swap(p, &mut page);
        proof {
            assert forall|b: int| 0 <= b < self.size implies #[trigger] page_byte(self.pages@, b) == old(self).view().update(a as int, v)[b] by {
                assert(0 <= b / PAGE_SIZE as int <= self.size as int / PAGE_SIZE as int);
                if b / PAGE_SIZE as int == p as int {
                    if b != a {
                        assert(b % PAGE_SIZE as int != off as int);
                    }
                }
            }
            assert(self.view() =~= old(self).view().update(a as int, v));
        }
    }

    pub fn len(&self) -> (n: usize)
        requires
            self.wf(),
        ensures
            n == self.view().len(),
    {
        self.size
    }

    pub fn is_empty(&self) -> (b: bool)
        requires
            self.wf(),
        ensures
            b == (self.view().len() == 0),
    {
        self.size == 0
    }

    /// Makes every later access charge the clock it is given.
    pub fn with_clock(self) -> (m: Self)
        ensures
            m.view() == self.view(),
            m.wf() == self.wf(),
            m.is_timed(),
            m.timing_spec() == self.timing_spec(),
    {
        MainMemory { timed: true, ..self }
    }

    pub fn with_timing(self, timing: MainMemoryTiming) -> (m: Self)
        ensures
            m.view() == self.view(),
            m.wf() == self.wf(),
            m.is_timed() == self.is_timed(),
            m.timing_spec() == timing,
    {
        MainMemory { timing, ..self }
    }

    /// Reads a byte without charging the clock.
    pub fn get(&self, pos: usize) -> (r: u8)
        requires
            self.wf(),
            pos < self.view().len(),
        ensures
            r == self.view()[pos as int],
    {
        self.byte(pos)
    }

    /// Writes a byte without charging the clock.
    pub fn set(&mut self, pos: usize, n: u8)
        requires
            old(self).wf(),
            pos < old(self).view().len(),
        ensures
            final(self).wf(),
            final(self).view() == old(self).view().update(pos as int, n),
            final(self).is_timed() == old(self).is_timed(),
            final(self).timing_spec() == old(self).timing_spec(),
    {
        self.put(pos, n);
    }

    /// Copies out the bytes in `start..end`.
    pub fn get_range(&self, start: usize, end: usize) -> (r: Vec<u8>)
        requires
            self.wf(),
            start <= end <= self.view().len(),
        ensures
            r@ == self.view().subrange(start as int, end as int),
    {
        let mut r: Vec<u8> = Vec::new();
        let mut i: usize = start;
        while i < end
            invariant
                self.wf(),
                start <= i <= end <= self.view().len(),
                r@ == self.view().subrange(start as int, i as int),
            decreases end - i,
        {
            r.push(self.byte(i));
            i = i + 1;
        }
        r
    }

    /// Overwrites the bytes starting at `start` with `buf`.
    pub fn set_range(&mut self, start: usize, buf: &[u8])
        requires
            old(self).wf(),
            start + buf@.len() <= old(self).view().len(),
        ensures
            final(self).wf(),
            final(self).view() == old(self).view().subrange(0, start as int) + buf@
                + old(self).view().subrange(start + buf@.len(), old(self).view().len() as int),
            final(self).is_timed() == old(self).is_timed(),
            final(self).timing_spec() == old(self).timing_spec(),
    {
        let mut i: usize = 0;
        while i < buf.len()
            invariant
                self.wf(),
                start + buf@.len() <= self.view().len(),
                self.view().len() == old(self).view().len(),
                i <= buf@.len(),
                self.is_timed() == old(self).is_timed(),
                self.timing_spec() == old(self).timing_spec(),
                forall|k: int|
                    0 <= k < self.view().len() ==> #[trigger] self.view()[k] == if start <= k
                        < start + i {
                        buf@[k - start]
                    } else {
                        old(self).view()[k]
                    },
            decreases buf@.len() - i,
        {
            self.put(start + i, buf[i]);
            i = i + 1;
        }
        assert(self.view() =~= old(self).view().subrange(0, start as int) + buf@
            + old(self).view().subrange(start + buf@.len(), old(self).view().len() as int));
    }

    fn charge_load(&self, clock: &mut Clock)
        ensures
            final(clock)@ == saturating_tick(old(clock)@, self.load_cost()),
    {
        if self.timed {
            clock.advance(self.timing.load);
        }
    }

    fn charge_store(&self, clock: &mut Clock)
        ensures
            final(clock)@ == saturating_tick(old(clock)@, self.store_cost()),
    {
        if self.timed {
            clock.advance(self.timing.store);
        }
    }
}

impl MemoryDevice for MainMemory {
    closed spec fn view(&self) -> Seq<u8> {
        Seq::new(self.size as nat, |a: int| page_byte(self.pages@, a))
    }

    closed spec fn wf(&self) -> bool {
        &&& self.pages@.len() == self.size / PAGE_SIZE + 1
        &&& forall|p: int| 0 <= p < self.pages@.len() ==> (#[trigger] self.pages@[p])@.len() == 0
            || self.pages@[p]@.len() == PAGE_SIZE
    }

    open spec fn accessible(&self, addr: int) -> bool {
        0 <= addr < self.view().len()
    }

    open spec fn coherent(&self) -> bool {
        true
    }

    open spec fn exclusive(&self, addr: int) -> bool {
        true
    }

    open spec fn outgoing(&self) -> Seq<usize> {
        Seq::empty()
    }

    open spec fn fixed_costs(&self) -> Option<(u64, u64)> {
        Some((self.load_cost(), self.store_cost()))
    }

    open spec fn holds_line(&self, addr: int) -> bool {
        false
    }

    proof fn lemma_accessible_in_range(&self, addr: int) {
    }

    fn load_u8(&mut self, addr: usize, clock: &mut Clock) -> (r: u8)
        ensures
            r == old(self).view()[addr as int],
            *final(self) == *old(self),
            final(clock)@ == saturating_tick(old(clock)@, old(self).load_cost()),
    {
        self.charge_load(clock);
        self.byte(addr)
    }

    fn store_u8(&mut self, addr: usize, n: u8, clock: &mut Clock)
        ensures
            final(self).view() == old(self).view().update(addr as int, n),
            final(self).is_timed() == old(self).is_timed(),
            final(self).timing_spec() == old(self).timing_spec(),
            final(clock)@ == saturating_tick(old(clock)@, old(self).store_cost()),
    {
        self.charge_store(clock);
        self.put(addr, n);
    }

    /// Loads the byte at `addr` as a signed value, at the cost of one load.
    fn load_i8(&mut self, addr: usize, clock: &mut Clock) -> (r: i8)
        ensures
            r == old(self).view()[addr as int] as i8,
            *final(self) == *old(self),
            final(clock)@ == saturating_tick(old(clock)@, old(self).load_cost()),
    {
        self.load_u8(addr, clock) as i8
    }

    /// Stores the two's-complement byte of `n` at `addr`, at the cost of one
    /// store.
    fn store_i8(&mut self, addr: usize, n: i8, clock: &mut Clock)
        ensures
            final(self).view() == old(self).view().update(addr as int, n as u8),
            final(self).is_timed() == old(self).is_timed(),
            final(self).timing_spec() == old(self).timing_spec(),
            final(clock)@ == saturating_tick(old(clock)@, old(self).store_cost()),
    {
        self.store_u8(addr, n as u8, clock)
    }

    /// Loads the halfword at `addr` as a signed value, at the cost of one
    /// load.
    fn load_i16(&mut self, addr: usize, clock: &mut Clock) -> (r: i16)
        ensures
            r == super::le_u16(old(self).view(), addr as int) as i16,
            *final(self) == *old(self),
            final(clock)@ == saturating_tick(old(clock)@, old(self).load_cost()),
    {
        self.load_u16(addr, clock) as i16
    }

    /// Stores the two's-complement halfword of `n` at `addr`, at the cost of
    /// one store.
    fn store_i16(&mut self, addr: usize, n: i16, clock: &mut Clock)
        ensures
            final(self).view() == super::put_u16(old(self).view(), addr as int, n as u16),
            final(self).is_timed() == old(self).is_timed(),
            final(self).timing_spec() == old(self).timing_spec(),
            final(clock)@ == saturating_tick(old(clock)@, old(self).store_cost()),
    {
        self.store_u16(addr, n as u16, clock)
    }

    fn load_u16(&mut self, addr: usize, clock: &mut Clock) -> (r: u16)
        ensures
            r == super::le_u16(old(self).view(), addr as int),
            *final(self) == *old(self),
            final(clock)@ == saturating_tick(old(clock)@, old(self).load_cost()),
    {
        self.charge_load(clock);
        let lo = self.byte(addr) as u16;
        let hi = self.byte(addr + 1) as u16;
        lo + hi * 256
    }

    fn store_u16(&mut self, addr: usize, n: u16, clock: &mut Clock)
        ensures
            final(self).view() == super::put_u16(old(self).view(), addr as int, n),
            final(self).is_timed() == old(self).is_timed(),
            final(self).timing_spec() == old(self).timing_spec(),
            final(clock)@ == saturating_tick(old(clock)@, old(self).store_cost()),
    {
        self.charge_store(clock);
        self.put(addr, (n % 256) as u8);
        self.put(addr + 1, (n / 256) as u8);
    }

    fn load_u32(&mut self, addr: usize, clock: &mut Clock) -> (r: u32)
        ensures
            r == super::le_u32(old(self).view(), addr as int),
            *final(self) == *old(self),
            final(clock)@ == saturating_tick(old(clock)@, old(self).load_cost()),
    {
        self.charge_load(clock);
        let b0 = self.byte(addr) as u32;
        let b1 = self.byte(addr + 1) as u32;
        let b2 = self.byte(addr + 2) as u32;
        let b3 = self.byte(addr + 3) as u32;
        b0 + b1 * 256 + b2 * 65536 + b3 * 16777216
    }

    fn store_u32(&mut self, addr: usize, n: u32, clock: &mut Clock)
        ensures
            final(self).view() == super::put_u32(old(self).view(), addr as int, n),
            final(self).is_timed() == old(self).is_timed(),
            final(self).timing_spec() == old(self).timing_spec(),
            final(clock)@ == saturating_tick(old(clock)@, old(self).store_cost()),
    {
        self.charge_store(clock);
        self.put(addr, (n % 256) as u8);
        self.put(addr + 1, ((n / 256) % 256) as u8);
        self.put(addr + 2, ((n / 65536) % 256) as u8);
        self.put(addr + 3, (n / 16777216) as u8);
    }

    fn peek_u8(&self, addr: usize) -> (r: u8) {
        self.byte(addr)
    }

    fn store_backmost_u8(&mut self, addr: usize, n: u8, clock: &mut Clock)
        ensures
            final(self).view() == old(self).view().update(addr as int, n),
            final(clock)@ == saturating_tick(old(clock)@, old(self).store_cost()),
    {
        self.store_u8(addr, n, clock);
    }

    fn take_invalidations(&mut self) -> (v: Vec<usize>) {
        Vec::new()
    }
}

} // verus!
