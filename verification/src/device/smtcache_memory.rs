use vstd::prelude::*;

use crate::device::Clock;
use crate::device::cache_trace::{last_access_hit, records_access, CacheAccessEvent, CacheAccessKind, CacheAccessSource, CacheTrace};
use crate::device::clock::{lemma_tick_by_twice, saturating_tick, tick_by};
use crate::device::memory::lines::{lemma_base_of, lemma_base_of_props, lemma_slot_index, overwrite, lemma_line_fits};
use crate::device::memory::table::{
    CachedLine, at, backing_frame, is_victim, backing_sound, clean_match, covers, find_in, holds, holds_base,
    lemma_clean_put, lemma_clean_update_uncovered, lemma_holds_covers, lemma_overlay_hit,
    lemma_overlay_put, lemma_overlay_remove, lemma_overlay_update_uncovered, lemma_overlay_write,
    lemma_overwrite_same, lemma_same_content, line_accessible, overlay, present, put_slot, read_line,
    table_wf, take_slot, write_line, without_lines, addr_set, lemma_without_nothing, lemma_without_twice,
    lemma_addr_set_step,
};
use crate::device::memory::{CacheTiming, InvalidationListener, MemoryDevice};
use crate::device::secdcp_memory::{SecurityClass, SecurityClassControl};
use crate::device::newcache_memory::{EvictedSummary, lemma_overwrite_one, lemma_unheld_line};

use vstd::arithmetic::div_mod::{lemma_fundamental_div_mod, lemma_fundamental_div_mod_converse};

verus! {

/// A first-level cache cut into slices, each a set-associative cache of
/// its own that serves one security class at a time, so that classes
/// cannot evict each other's lines.
///
/// A class without a slice takes a free one, or else the slice used least
/// recently, which is flushed first.
pub struct SmtCacheMemory<M: MemoryDevice> {
    line_size: usize,
    num_sets: usize,
    associativity: usize,
    slice_count: usize,
    lines: Vec<Option<CachedLine>>,
    owners: Vec<Option<SecurityClass>>,
    slice_used: Vec<usize>,
    active_domain: SecurityClass,
    requester_pid: u32,
    requester_domain_id: u32,
    use_counter: usize,
    backing: M,
    timed: bool,
    timing: CacheTiming,
    trace: Option<CacheTrace>,
    pending: Vec<usize>,
}

/// `o` names class `d`.
pub open spec fn is_owner(o: Option<SecurityClass>, d: SecurityClass) -> bool {
    o == Some(d)
}

fn owned_by(o: Option<SecurityClass>, d: SecurityClass) -> (r: bool)
    ensures
        r == is_owner(o, d),
{
    match (o, d) {
        (Some(SecurityClass::High), SecurityClass::High) => true,
        (Some(SecurityClass::Low), SecurityClass::Low) => true,
        _ => false,
    }
}

impl<M: MemoryDevice> SmtCacheMemory<M> {
    pub closed spec fn line_len(&self) -> int {
        self.line_size as int
    }

    pub closed spec fn is_timed(&self) -> bool {
        self.timed
    }

    pub closed spec fn timing_spec(&self) -> CacheTiming {
        self.timing
    }

    pub closed spec fn backing_spec(&self) -> M {
        self.backing
    }

    /// The class that slice `s` serves, if any.
    pub closed spec fn owner_of(&self, s: int) -> Option<SecurityClass> {
        self.owners@[s]
    }

    /// The class the current requester belongs to.
    pub closed spec fn requester_class(&self) -> SecurityClass {
        self.active_domain
    }

    /// The process that the accesses that follow are attributed to.
    pub closed spec fn requester_pid(&self) -> u32 {
        self.requester_pid
    }

    /// The domain that the accesses that follow are attributed to.
    pub closed spec fn requester_domain(&self) -> u32 {
        self.requester_domain_id
    }

    /// The slice that slot `i` belongs to.
    pub closed spec fn slot_slice(&self, i: int) -> int {
        self.slice_of(i)
    }

    /// How many slots the slices have together.
    pub closed spec fn slot_total(&self) -> int {
        self.lines@.len() as int
    }

    /// Lines the level below evicted that this cache has yet to drop.
    pub closed spec fn pending_invalidations(&self) -> Seq<usize> {
        self.pending@
    }

    /// Whether the slice of the current requester's class holds the line
    /// starting at `b`.
    pub closed spec fn held_for_requester(&self, b: int) -> bool {
        exists|j: int| holds(self.lines@, j, b) && #[trigger] is_owner(self.owners@[self.slice_of(j)], self.active_domain)
    }

    /// Whether the current requester's class owns a slice whose set for the
    /// line of `a` has an empty way, so that a miss there evicts nothing.
    pub closed spec fn room_for_requester(&self, a: int) -> bool {
        exists|t: int, j: int|
            #![trigger is_owner(self.owners@[t], self.active_domain), present(self.lines@, j)]
            0 <= t < self.slice_count && is_owner(self.owners@[t], self.active_domain)
                && t * self.slice_size() + self.set_of(self.base_of(a)) * self.associativity <= j
                && j < t * self.slice_size() + self.set_of(self.base_of(a)) * self.associativity + self.associativity
                && !present(self.lines@, j)
    }

    /// The line slots of every slice.
    pub closed spec fn line_slots(&self) -> Seq<Option<CachedLine>> {
        self.lines@
    }

    /// The events recorded so far, if the cache is traced.

    pub closed spec fn trace_spec(&self) -> Option<Seq<CacheAccessEvent>> {
        match self.trace {
            Some(t) => Some(t@),
            None => None,
        }
    }

    pub open spec fn base_of(&self, a: int) -> int {
        (a / self.line_len()) * self.line_len()
    }

    spec fn slice_size(&self) -> int {
        self.num_sets * self.associativity
    }

    spec fn slice_of(&self, i: int) -> int {
        i / self.slice_size()
    }

    /// Whether slot `i` lies outside the slots of slice `s`.
    spec fn outside_slice(&self, i: int, s: int) -> bool {
        !(s * self.slice_size() <= i < s * self.slice_size() + self.slice_size())
    }

    spec fn slot_set(&self, i: int) -> int {
        (i % self.slice_size()) / (self.associativity as int)
    }

    spec fn set_of(&self, b: int) -> int {
        (b / self.line_len()) % (self.num_sets as int)
    }

    spec fn mem_len(&self) -> int {
        self.backing.view().len() as int
    }

    spec fn shape_wf(&self) -> bool {
        &&& self.line_size > 0
        &&& self.num_sets > 0
        &&& self.associativity > 0
        &&& self.slice_count > 0
        &&& self.num_sets * self.associativity <= usize::MAX
        &&& self.num_sets * self.associativity > 0
        &&& self.slice_count * (self.num_sets * self.associativity) <= usize::MAX
        &&& self.lines@.len() == self.slice_count * (self.num_sets * self.associativity)
        &&& self.owners@.len() == self.slice_count
        &&& self.slice_used@.len() == self.slice_count
    }

    spec fn lines_wf(&self) -> bool {
        &&& forall|i: int|
            #[trigger] present(self.lines@, i) ==> {
                &&& at(self.lines@, i).data@.len() == self.line_len()
                &&& (at(self.lines@, i).base_addr as int) % self.line_len() == 0
                &&& at(self.lines@, i).base_addr + self.line_len() <= self.mem_len()
                &&& line_accessible(self.backing, at(self.lines@, i).base_addr as int, self.line_len())
                &&& self.set_of(at(self.lines@, i).base_addr as int) == self.slot_set(i)
                &&& self.owners@[self.slice_of(i)] is Some
            }
        &&& forall|i: int, j: int|
            #![trigger present(self.lines@, i), present(self.lines@, j)]
            present(self.lines@, i) && present(self.lines@, j) && self.slice_of(i) == self.slice_of(j)
                && at(self.lines@, i).base_addr == at(self.lines@, j).base_addr ==> i == j
    }

    /// No class owns two slices.
    spec fn owners_wf(&self) -> bool {
        forall|s: int, t: int|
            #![trigger self.owners@[s], self.owners@[t]]
            0 <= s < self.slice_count && 0 <= t < self.slice_count && self.owners@[s] is Some
                && self.owners@[s] == self.owners@[t] ==> s == t
    }

    spec fn state_wf(&self) -> bool {
        &&& self.shape_wf()
        &&& self.lines_wf()
        &&& self.owners_wf()
        &&& self.backing.wf()
    }

    /// Every resident line sits in the slice of the current requester's class.
    spec fn single_class(&self) -> bool {
        forall|i: int| #[trigger] present(self.lines@, i) ==> self.owners@[self.slice_of(i)] == Some(self.active_domain)
    }

    spec fn state_coherent(&self) -> bool {
        &&& backing_sound(self.backing)
        &&& self.single_class()
        &&& clean_match(self.lines@, self.line_len(), self.backing.view())
    }

    spec fn full_view(&self) -> Seq<u8> {
        overlay(self.lines@, self.line_len(), self.backing.view())
    }

    spec fn same_frame(&self, other: &Self) -> bool {
        &&& self.line_size == other.line_size
        &&& self.num_sets == other.num_sets
        &&& self.associativity == other.associativity
        &&& self.slice_count == other.slice_count
        &&& self.timed == other.timed
        &&& self.timing == other.timing
        &&& self.active_domain == other.active_domain
        &&& self.requester_pid == other.requester_pid
        &&& self.requester_domain_id == other.requester_domain_id
        &&& (self.trace is Some) == (other.trace is Some)
        &&& backing_frame(self.backing, other.backing)
    }
}

/// Slot `s * (sets * ways) + set * ways + w` lies in slice `s` and set `set`.
/// A slot whose slice is not `s` lies outside the slots of `s`.
proof fn lemma_outside_slice(i: int, s: int, ss: int)
    requires
        ss > 0,
        i >= 0,
        s >= 0,
        i / ss != s,
    ensures
        !(s * ss <= i < s * ss + ss),
{
    if s * ss <= i < s * ss + ss {
        lemma_fundamental_div_mod_converse(i, ss, s, i - s * ss);
    }
}

proof fn lemma_slice_slot(s: int, set: int, w: int, sets: int, ways: int, slices: int)
    requires
        0 <= s < slices,
        0 <= set < sets,
        0 <= w < ways,
    ensures
        0 <= set * ways + w < sets * ways,
        0 <= s * (sets * ways) + set * ways + w < slices * (sets * ways),
        (s * (sets * ways) + set * ways + w) / (sets * ways) == s,
        ((s * (sets * ways) + set * ways + w) % (sets * ways)) / ways == set,
{
    lemma_slot_index(set, w, ways, sets);
    let x = set * ways + w;
    let ss = sets * ways;
    lemma_slot_index(s, x, ss, slices);
    let i = s * ss + x;
    lemma_fundamental_div_mod(i, ss);
    assert(ss * s == s * ss) by (nonlinear_arith);
    assert(i % ss == x);
}

/// A slot of slice `s` and set `set` lies within that set's ways.
proof fn lemma_slot_range(i: int, s: int, set: int, sets: int, ways: int)
    requires
        0 <= i,
        sets > 0,
        ways > 0,
        i / (sets * ways) == s,
        (i % (sets * ways)) / ways == set,
    ensures
        s * (sets * ways) + set * ways <= i < s * (sets * ways) + set * ways + ways,
{
    let ss = sets * ways;
    assert(ss > 0) by (nonlinear_arith)
        requires
            ss == sets * ways,
            sets > 0,
            ways > 0,
    ;
    lemma_fundamental_div_mod(i, ss);
    let x = i % ss;
    lemma_fundamental_div_mod(x, ways);
    assert(ss * s == s * ss) by (nonlinear_arith);
    assert(ways * set == set * ways) by (nonlinear_arith);
    assert(0 <= x % ways < ways) by (nonlinear_arith)
        requires
            ways > 0,
    ;
}

impl<M: MemoryDevice> SmtCacheMemory<M> {
    proof fn lemma_frame_trans(s1: Self, s2: Self, s3: Self)
        requires
            s2.same_frame(&s1),
            s3.same_frame(&s2),
        ensures
            s3.same_frame(&s1),
    {
        assert forall|b: int| #[trigger] s3.backing.accessible(b) == s1.backing.accessible(b) by {
            assert(s2.backing.accessible(b) == s1.backing.accessible(b));
        }
        assert forall|b: int| s1.backing.exclusive(b) implies #[trigger] s3.backing.exclusive(b) by {
            assert(s2.backing.exclusive(b));
        }
    }

    /// With every line in one slice, no two slots hold the same line.
    proof fn lemma_unique(&self)
        requires
            self.state_wf(),
            self.single_class(),
        ensures
            table_wf(self.lines@, self.line_len(), self.mem_len()),
    {
        let t = self.lines@;
        assert forall|i: int, j: int|
            #![trigger present(t, i), present(t, j)]
            present(t, i) && present(t, j) && at(t, i).base_addr == at(t, j).base_addr implies i == j by {
            assert(self.owners@[self.slice_of(i)] == Some(self.active_domain));
            assert(self.owners@[self.slice_of(j)] == Some(self.active_domain));
            assert(0 <= self.slice_of(i) < self.slice_count) by (nonlinear_arith)
                requires
                    0 <= i < self.slice_count * self.slice_size(),
                    self.slice_size() > 0,
                    self.slice_of(i) == i / self.slice_size(),
            ;
            assert(0 <= self.slice_of(j) < self.slice_count) by (nonlinear_arith)
                requires
                    0 <= j < self.slice_count * self.slice_size(),
                    self.slice_size() > 0,
                    self.slice_of(j) == j / self.slice_size(),
            ;
        }
    }

    /// Every slot lies in one of the slices.
    proof fn lemma_slice_bound(&self, i: int)
        requires
            self.shape_wf(),
            0 <= i < self.lines@.len(),
        ensures
            0 <= self.slice_of(i) < self.slice_count,
    {
        assert(0 <= self.slice_of(i) < self.slice_count) by (nonlinear_arith)
            requires
                0 <= i < self.slice_count * self.slice_size(),
                self.slice_size() > 0,
                self.slice_of(i) == i / self.slice_size(),
        ;
    }

    /// Lines stay well formed over a backing whose accessible addresses and
    /// size are kept.
    proof fn lemma_lines_backing(&self, other: Self)
        requires
            other.lines_wf(),
            self.lines@ == other.lines@,
            self.owners@ == other.owners@,
            self.line_size == other.line_size,
            self.num_sets == other.num_sets,
            self.associativity == other.associativity,
            forall|b: int| #[trigger] self.backing.accessible(b) == other.backing.accessible(b),
            self.backing.view().len() == other.backing.view().len(),
        ensures
            self.lines_wf(),
    {
        assert forall|i: int| #[trigger] present(self.lines@, i) implies line_accessible(
            self.backing,
            at(self.lines@, i).base_addr as int,
            self.line_len(),
        ) by {
            assert(line_accessible(other.backing, at(other.lines@, i).base_addr as int, other.line_len()));
            assert forall|k: int| 0 <= k < self.line_len() implies #[trigger] self.backing.accessible(at(self.lines@, i).base_addr + k) by {
                assert(other.backing.accessible(at(other.lines@, i).base_addr + k));
            }
        }
    }

    fn line_base(&self, addr: usize) -> (b: usize)
        requires
            self.shape_wf(),
        ensures
            b == self.base_of(addr as int),
            b <= addr,
    {
        proof {
            lemma_base_of_props(addr as int, self.line_len());
        }
        (addr / self.line_size) * self.line_size
    }

    fn set_index(&self, addr: usize) -> (s: usize)
        requires
            self.shape_wf(),
        ensures
            s == self.set_of(self.base_of(addr as int)),
            s < self.num_sets,
    {
        proof {
            lemma_base_of_props(addr as int, self.line_len());
        }
        (addr / self.line_size) % self.num_sets
    }

    fn next_use_counter(&mut self) -> (v: usize)
        ensures
            v == old(self).use_counter,
            *final(self) == (Self { use_counter: final(self).use_counter, ..*old(self) }),
    {
        let v = self.use_counter;
        self.use_counter = self.use_counter.saturating_add(1);
        v
    }

    fn charge(&self, n: u64, clock: &mut Clock)
        ensures
            final(clock)@ == saturating_tick(old(clock)@, if self.timed { n } else { 0 }),
    {
        if self.timed {
            clock.advance(n);
        }
    }

    /// Empties slot `idx`, writing the line back when dirty; returns
    /// whether it was written back.
    fn remove_slot(&mut self, idx: usize, clock: &mut Clock) -> (wrote_back: bool)
        requires
            old(self).state_wf(),
            idx < old(self).lines@.len(),
            present(old(self).lines@, idx as int),
        ensures
            final(self).state_wf(),
            final(self).same_frame(old(self)),
            final(self).owners == old(self).owners,
            final(self).slice_used == old(self).slice_used,
            final(self).use_counter == old(self).use_counter,
            final(self).trace == old(self).trace,
            final(self).lines@ == old(self).lines@.update(idx as int, None),
            wrote_back == at(old(self).lines@, idx as int).dirty,
            final(clock)@ >= old(clock)@,
            old(self).state_coherent() ==> {
                &&& final(self).state_coherent()
                &&& final(self).full_view() == old(self).full_view()
            },
    {
        let ghost s0 = *self;
        let slot = take_slot(&mut self.lines, idx);
        match slot {
            Some(line) => {
                proof {
                    assert(present(s0.lines@, idx as int));
                    assert(line_accessible(s0.backing, line.base_addr as int, s0.line_len()));
                }
                if line.dirty {
                    write_line(&mut self.backing, &mut self.pending, line.base_addr, &line.data, clock);
                    self.charge(self.timing.write_back, clock);
                }
                proof {
                    let c0 = s0.lines@;
                    let c1 = self.lines@;
                    let ls = s0.line_len();
                    assert forall|i: int| #[trigger] present(c1, i) implies {
                        &&& at(c1, i).data@.len() == ls
                        &&& (at(c1, i).base_addr as int) % ls == 0
                        &&& at(c1, i).base_addr + ls <= self.mem_len()
                        &&& line_accessible(self.backing, at(c1, i).base_addr as int, ls)
                        &&& self.set_of(at(c1, i).base_addr as int) == self.slot_set(i)
                        &&& self.owners@[self.slice_of(i)] is Some
                    } by {
                        assert(present(c0, i));
                        assert(line_accessible(s0.backing, at(c0, i).base_addr as int, ls));
                        assert forall|k: int| 0 <= k < ls implies #[trigger] self.backing.accessible(at(c1, i).base_addr + k) by {
                            assert(s0.backing.accessible(at(c0, i).base_addr + k));
                        }
                    }
                    assert forall|i: int, j: int|
                        #![trigger present(c1, i), present(c1, j)]
                        present(c1, i) && present(c1, j) && self.slice_of(i) == self.slice_of(j)
                            && at(c1, i).base_addr == at(c1, j).base_addr implies i == j by {
                        assert(present(c0, i) && present(c0, j));
                    }
                    if s0.state_coherent() {
                        s0.lemma_unique();
                        lemma_overlay_remove(c0, ls, s0.mem_len(), s0.backing.view(), idx as int);
                        assert forall|i: int| #[trigger] present(c1, i) implies self.owners@[self.slice_of(i)]
                            == Some(self.active_domain) by {
                            assert(present(c0, i));
                        }
                    }
                }
                line.dirty
            },
            None => {
                proof {
                    assert(false);
                }
                false
            },
        }
    }

    /// Empties slice `s`, writing its dirty lines back; returns how many it
    /// wrote back.
    fn flush_slice(&mut self, s: usize, clock: &mut Clock) -> (writebacks: u64)
        requires
            old(self).state_wf(),
            s < old(self).slice_count,
        ensures
            final(self).state_wf(),
            final(self).same_frame(old(self)),
            final(self).owners == old(self).owners,
            final(self).slice_used == old(self).slice_used,
            final(self).use_counter == old(self).use_counter,
            final(self).trace == old(self).trace,
            forall|i: int| #[trigger] present(final(self).lines@, i) ==> final(self).slice_of(i) != s,
            forall|i: int| #[trigger] present(final(self).lines@, i) ==> present(old(self).lines@, i)
                && at(final(self).lines@, i) == at(old(self).lines@, i),
            final(self).lines@.len() == old(self).lines@.len(),
            forall|i: int| 0 <= i < old(self).lines@.len() && old(self).outside_slice(i, s as int)
                ==> #[trigger] final(self).lines@[i] == old(self).lines@[i],
            final(clock)@ >= old(clock)@,
            old(self).state_coherent() ==> {
                &&& final(self).state_coherent()
                &&& final(self).full_view() == old(self).full_view()
            },
    {
        let ss = self.num_sets * self.associativity;
        proof {
            assert(s * ss + ss <= self.slice_count * ss) by (nonlinear_arith)
                requires
                    s < self.slice_count,
                    ss >= 0,
            ;
            assert(s * ss >= 0) by (nonlinear_arith)
                requires
                    ss >= 0,
            ;
        }
        let lo = s * ss;
        let hi = lo + ss;
        let mut writebacks: u64 = 0;
        let mut i: usize = lo;
        while i < hi
            invariant
                self.state_wf(),
                self.same_frame(old(self)),
                self.owners == old(self).owners,
                self.slice_used == old(self).slice_used,
                self.use_counter == old(self).use_counter,
                self.trace == old(self).trace,
                self.slice_size() == ss,
                lo == s * ss,
                hi == lo + ss,
                hi <= self.lines@.len(),
                lo <= i <= hi,
                writebacks <= i - lo,
                self.lines@.len() == old(self).lines@.len(),
                forall|j: int| 0 <= j < self.lines@.len() && !(lo <= j < i) ==> #[trigger] self.lines@[j] == old(
                    self,
                ).lines@[j],
                forall|j: int| lo <= j < i ==> !#[trigger] present(self.lines@, j),
                forall|j: int| #[trigger] present(self.lines@, j) ==> present(old(self).lines@, j)
                    && at(self.lines@, j) == at(old(self).lines@, j),
                clock@ >= old(clock)@,
                old(self).state_coherent() ==> {
                    &&& self.state_coherent()
                    &&& self.full_view() == old(self).full_view()
                },
            decreases hi - i,
        {
            if self.lines[i].is_some() {
                let ghost s0 = *self;
                let wrote = self.remove_slot(i, clock);
                proof {
                    Self::lemma_frame_trans(*old(self), s0, *self);
                    assert forall|j: int| lo <= j < i + 1 implies !#[trigger] present(self.lines@, j) by {
                        if j != i {
                            assert(!present(s0.lines@, j));
                        }
                    }
                    assert forall|j: int| #[trigger] present(self.lines@, j) implies present(old(self).lines@, j)
                        && at(self.lines@, j) == at(old(self).lines@, j) by {
                        assert(present(s0.lines@, j));
                    }
                }
                if wrote {
                    writebacks = writebacks + 1;
                }
            }
            i = i + 1;
        }
        proof {
            assert forall|j: int| #[trigger] present(self.lines@, j) implies self.slice_of(j) != s by {
                if self.slice_of(j) == s {
                    lemma_fundamental_div_mod(j, ss as int);
                    assert(0 <= j % (ss as int) < ss) by (nonlinear_arith)
                        requires
                            ss > 0,
                    ;
                    assert((ss as int) * (j / (ss as int)) == s * ss) by (nonlinear_arith)
                        requires
                            j / (ss as int) == s,
                    ;
                }
            }
        }
        writebacks
    }
}

impl<M: MemoryDevice> SmtCacheMemory<M> {
    /// Drops the lines that the level below has evicted since the last access.
    fn apply_pending(&mut self, clock: &mut Clock)
        requires
            old(self).state_wf(),
        ensures
            final(self).state_wf(),
            final(self).same_frame(old(self)),
            final(self).owners == old(self).owners,
            final(self).slice_used == old(self).slice_used,
            final(self).use_counter == old(self).use_counter,
            final(self).trace == old(self).trace,
            final(clock)@ >= old(clock)@,
            final(self).lines@ == without_lines(old(self).lines@, addr_set(old(self).pending@)),
            old(self).pending@.len() == 0 ==> final(self).lines@ == old(self).lines@ && final(clock)@ == old(clock)@
                && final(self).backing == old(self).backing,
            old(self).state_coherent() ==> {
                &&& final(self).state_coherent()
                &&& final(self).full_view() == old(self).full_view()
            },
    {
        let mut addrs: Vec<usize> = Vec::new();
        std::mem::swap(&mut addrs, &mut self.pending);
        proof {
            lemma_without_nothing(old(self).lines@);
            if addrs@.len() > 0 {
                lemma_addr_set_step(addrs@, 0);
            } else {
                assert(addrs@.subrange(0, 0) =~= addrs@);
            }
        }
        let mut k: usize = 0;
        while k < addrs.len()
            invariant
                addrs@ == old(self).pending@,
                self.lines@ == without_lines(old(self).lines@, addr_set(addrs@.subrange(0, k as int))),
                addrs@.len() == old(self).pending@.len(),
                addrs@.len() == 0 ==> self.lines@ == old(self).lines@ && clock@ == old(clock)@
                    && self.backing == old(self).backing,
                self.state_wf(),
                self.same_frame(old(self)),
                self.owners == old(self).owners,
                self.slice_used == old(self).slice_used,
                self.use_counter == old(self).use_counter,
                self.trace == old(self).trace,
                k <= addrs@.len(),
                clock@ >= old(clock)@,
                old(self).state_coherent() ==> {
                    &&& self.state_coherent()
                    &&& self.full_view() == old(self).full_view()
                },
            decreases addrs@.len() - k,
        {
            let ghost s0 = *self;
            self.invalidate_all_copies(addrs[k], clock);
            proof {
                Self::lemma_frame_trans(*old(self), s0, *self);
                lemma_addr_set_step(addrs@, k as int);
                lemma_without_twice(
                    old(self).lines@,
                    addr_set(addrs@.subrange(0, k as int)),
                    set![addrs@[k as int] as int],
                );
            }
            k = k + 1;
        }
        proof {
            assert(addrs@.subrange(0, addrs@.len() as int) =~= addrs@);
        }
    }

    /// Drops every copy of the line `base`, in whichever slice holds it,
    /// writing dirty ones back.
    fn invalidate_all_copies(&mut self, base: usize, clock: &mut Clock)
        requires
            old(self).state_wf(),
        ensures
            final(self).state_wf(),
            final(self).same_frame(old(self)),
            final(self).owners == old(self).owners,
            final(self).slice_used == old(self).slice_used,
            final(self).use_counter == old(self).use_counter,
            final(self).trace == old(self).trace,
            forall|i: int| !#[trigger] holds(final(self).lines@, i, base as int),
            final(self).lines@ == without_lines(old(self).lines@, set![base as int]),
            final(clock)@ >= old(clock)@,
            old(self).state_coherent() ==> {
                &&& final(self).state_coherent()
                &&& final(self).full_view() == old(self).full_view()
            },
    {
        let mut i: usize = 0;
        while i < self.lines.len()
            invariant
                self.state_wf(),
                self.same_frame(old(self)),
                self.owners == old(self).owners,
                self.slice_used == old(self).slice_used,
                self.use_counter == old(self).use_counter,
                self.trace == old(self).trace,
                i <= self.lines@.len(),
                forall|j: int| 0 <= j < i ==> !#[trigger] holds(self.lines@, j, base as int),
                self.lines@.len() == old(self).lines@.len(),
                forall|j: int| 0 <= j < i ==> #[trigger] self.lines@[j] == without_lines(
                    old(self).lines@,
                    set![base as int],
                )[j],
                forall|j: int| i <= j < self.lines@.len() ==> #[trigger] self.lines@[j] == old(self).lines@[j],
                clock@ >= old(clock)@,
                old(self).state_coherent() ==> {
                    &&& self.state_coherent()
                    &&& self.full_view() == old(self).full_view()
                },
            decreases self.lines@.len() - i,
        {
            let hit = match &self.lines[i] {
                Some(line) => line.base_addr == base,
                None => false,
            };
            if hit {
                let ghost s0 = *self;
                self.remove_slot(i, clock);
                proof {
                    Self::lemma_frame_trans(*old(self), s0, *self);
                    assert forall|j: int| 0 <= j < i + 1 implies !#[trigger] holds(self.lines@, j, base as int) by {
                        if j != i {
                            assert(!holds(s0.lines@, j, base as int));
                        }
                    }
                }
            } else {
                proof {
                    assert(!holds(self.lines@, i as int, base as int));
                }
            }
            i = i + 1;
        }
        proof {
            assert(self.lines@ =~= without_lines(old(self).lines@, set![base as int]));
        }
    }

    /// Whether the line of `a` lies in memory the level below can access.
    pub closed spec fn can_access(&self, a: int) -> bool {
        &&& 0 <= a
        &&& line_accessible(self.backing, self.base_of(a), self.line_len())
    }

    proof fn lemma_can_access(&self, a: int)
        requires
            self.state_wf(),
            self.can_access(a),
        ensures
            0 <= a < self.mem_len(),
            self.base_of(a) >= 0,
            self.base_of(a) % self.line_len() == 0,
            self.base_of(a) <= a < self.base_of(a) + self.line_len(),
            self.base_of(a) + self.line_len() <= self.mem_len(),
            self.mem_len() <= usize::MAX,
    {
        let ls = self.line_len();
        lemma_base_of_props(a, ls);
        let b = self.base_of(a);
        assert(self.backing.accessible(b + (a - b)));
        assert(self.backing.accessible(b + (ls - 1)));
        self.backing.lemma_accessible_in_range(b + (ls - 1));
        self.backing.lemma_accessible_in_range(a);
    }

    /// The slice of the current requester's class: the one it owns, else a
    /// free one, else the one used least recently, flushed and handed over.
    fn active_slice_index(&mut self, use_count: usize, clock: &mut Clock) -> (s: usize)
        requires
            old(self).state_wf(),
        ensures
            final(self).state_wf(),
            final(self).same_frame(old(self)),
            final(self).use_counter == old(self).use_counter,
            s < final(self).slice_count,
            final(self).owners@[s as int] == Some(final(self).active_domain),
            final(self).owners@ == old(self).owners@.update(s as int, Some(old(self).active_domain)),
            final(self).lines@.len() == old(self).lines@.len(),
            forall|i: int| 0 <= i < old(self).lines@.len() && old(self).outside_slice(i, s as int)
                ==> #[trigger] final(self).lines@[i] == old(self).lines@[i],
            (exists|t: int| 0 <= t < old(self).slice_count && #[trigger] is_owner(old(self).owners@[t], old(self).active_domain))
                ==> is_owner(old(self).owners@[s as int], old(self).active_domain),
            !(exists|t: int| 0 <= t < old(self).slice_count && #[trigger] is_owner(old(self).owners@[t], old(self).active_domain))
                && (exists|t: int| 0 <= t < old(self).slice_count && #[trigger] old(self).owners@[t] is None)
                ==> old(self).owners@[s as int] is None && forall|j: int| 0 <= j < s ==> #[trigger] old(self).owners@[j] is Some,
            !(exists|t: int| 0 <= t < old(self).slice_count && #[trigger] is_owner(old(self).owners@[t], old(self).active_domain))
                && !(exists|t: int| 0 <= t < old(self).slice_count && #[trigger] old(self).owners@[t] is None) ==> {
                &&& forall|j: int| 0 <= j < old(self).slice_count ==> old(self).slice_used@[s as int] <= #[trigger] old(
                    self,
                ).slice_used@[j]
                &&& forall|j: int| 0 <= j < s ==> old(self).slice_used@[s as int] < #[trigger] old(self).slice_used@[j]
            },
            final(clock)@ >= old(clock)@,
            final(self).slice_used@[s as int] == use_count,
            (exists|t: int| 0 <= t < old(self).slice_count && #[trigger] is_owner(old(self).owners@[t], old(self).active_domain))
                ==> final(self).lines@ == old(self).lines@ && final(self).owners@ == old(self).owners@ && final(clock)@ == old(clock)@
                && final(self).trace == old(self).trace && final(self).backing == old(self).backing,
            !(exists|t: int| 0 <= t < old(self).slice_count && #[trigger] is_owner(old(self).owners@[t], old(self).active_domain))
                && (exists|t: int| 0 <= t < old(self).slice_count && #[trigger] old(self).owners@[t] is None)
                ==> final(self).lines@ == old(self).lines@ && final(clock)@ == old(clock)@ && final(self).trace == old(self).trace,
            !(exists|t: int| 0 <= t < old(self).slice_count && #[trigger] is_owner(old(self).owners@[t], old(self).active_domain))
                && !(exists|t: int| 0 <= t < old(self).slice_count && #[trigger] old(self).owners@[t] is None) ==> {
                &&& forall|i: int| #[trigger] present(final(self).lines@, i) ==> final(self).slice_of(i) != s
                &&& (final(self).trace_spec() is Some) == (old(self).trace_spec() is Some)
                &&& final(self).trace_spec() matches Some(es) ==> {
                    &&& es.drop_last() == old(self).trace_spec()->0
                    &&& es.len() == old(self).trace_spec()->0.len() + 1
                    &&& es.last().kind == CacheAccessKind::SliceReassign
                    &&& es.last().requester == old(self).active_domain
                    &&& es.last().slice == Some(s)
                    &&& es.last().evicted_owner == old(self).owners@[s as int]
                }
            },
            old(self).state_coherent() ==> {
                &&& final(self).state_coherent()
                &&& final(self).full_view() == old(self).full_view()
            },
    {
        let domain = self.active_domain;
        let mut k: usize = 0;
        while k < self.slice_count
            invariant
                self.state_wf(),
                *self == *old(self),
                domain == old(self).active_domain,
                k <= self.slice_count,
                forall|j: int| 0 <= j < k ==> !#[trigger] is_owner(self.owners@[j], domain),
            decreases self.slice_count - k,
        {
            if owned_by(self.owners[k], domain) {
                self.slice_used.set(k, use_count);
                proof {
                    assert(is_owner(self.owners@[k as int], domain));
                    assert(self.owners@ =~= old(self).owners@.update(k as int, Some(domain)));
                }
                return k;
            }
            k = k + 1;
        }
        let mut k: usize = 0;
        while k < self.slice_count
            invariant
                self.state_wf(),
                *self == *old(self),
                domain == old(self).active_domain,
                k <= self.slice_count,
                forall|j: int| 0 <= j < self.slice_count ==> !#[trigger] is_owner(self.owners@[j], domain),
                forall|j: int| 0 <= j < k ==> #[trigger] self.owners@[j] is Some,
            decreases self.slice_count - k,
        {
            if self.owners[k].is_none() {
                let ghost s0 = *self;
                self.owners.set(k, Some(domain));
                self.slice_used.set(k, use_count);
                proof {
                    assert forall|i: int| #[trigger] present(self.lines@, i) implies self.owners@[self.slice_of(i)]
                        == s0.owners@[s0.slice_of(i)] by {
                        assert(present(s0.lines@, i));
                        s0.lemma_slice_bound(i);
                        assert(s0.owners@[s0.slice_of(i)] is Some);
                    }
                    assert forall|a: int, b: int|
                        #![trigger self.owners@[a], self.owners@[b]]
                        0 <= a < self.slice_count && 0 <= b < self.slice_count && self.owners@[a] is Some
                            && self.owners@[a] == self.owners@[b] implies a == b by {
                        if a != k && b != k {
                            assert(s0.owners@[a] == s0.owners@[b]);
                        } else if a == k && b != k {
                            assert(!is_owner(s0.owners@[b], domain));
                        } else if a != k && b == k {
                            assert(!is_owner(s0.owners@[a], domain));
                        }
                    }
                }
                return k;
            }
            k = k + 1;
        }
        let mut victim: usize = 0;
        let mut k: usize = 1;
        while k < self.slice_count
            invariant
                self.state_wf(),
                *self == *old(self),
                domain == old(self).active_domain,
                1 <= k <= self.slice_count,
                victim < k,
                forall|j: int| 0 <= j < k ==> self.slice_used@[victim as int] <= #[trigger] self.slice_used@[j],
                forall|j: int| 0 <= j < victim ==> self.slice_used@[victim as int] < #[trigger] self.slice_used@[j],
                forall|j: int| 0 <= j < self.slice_count ==> #[trigger] self.owners@[j] is Some,
                forall|j: int| 0 <= j < self.slice_count ==> !#[trigger] is_owner(self.owners@[j], domain),
            decreases self.slice_count - k,
        {
            if self.slice_used[k] < self.slice_used[victim] {
                victim = k;
            }
            k = k + 1;
        }
        let old_owner = self.owners[victim];
        let writebacks = self.flush_slice(victim, clock);
        let ghost s1 = *self;
        self.owners.set(victim, Some(domain));
        self.slice_used.set(victim, use_count);
        proof {
            assert forall|i: int| #[trigger] present(self.lines@, i) implies self.owners@[self.slice_of(i)]
                == s1.owners@[s1.slice_of(i)] by {
                assert(present(s1.lines@, i));
                s1.lemma_slice_bound(i);
                assert(s1.slice_of(i) != victim);
            }
            assert forall|a: int, b: int|
                #![trigger self.owners@[a], self.owners@[b]]
                0 <= a < self.slice_count && 0 <= b < self.slice_count && self.owners@[a] is Some
                    && self.owners@[a] == self.owners@[b] implies a == b by {
                if a != victim && b != victim {
                    assert(s1.owners@[a] == s1.owners@[b]);
                } else if a == victim && b != victim {
                    assert(!is_owner(s1.owners@[b], domain));
                } else if a != victim && b == victim {
                    assert(!is_owner(s1.owners@[a], domain));
                }
            }
        }
        let event = CacheAccessEvent {
            architecture: "smtcache",
            requester: domain,
            requester_pid: self.requester_pid,
            requester_domain: self.requester_domain_id,
            kind: CacheAccessKind::SliceReassign,
            addr: 0,
            set: None,
            hit: false,
            source: CacheAccessSource::Lower,
            evicted_owner: old_owner,
            evicted_pid: None,
            evicted_domain: None,
            evicted_addr: None,
            slice: Some(victim),
            writebacks,
        };
        match &mut self.trace {
            Some(t) => t.record(event),
            None => {},
        }
        victim
    }

    /// The way of `lo..hi` to fill: the first empty one, else the one used
    /// least recently.
    fn find_victim(&self, lo: usize, hi: usize) -> (w: usize)
        requires
            lo < hi <= self.lines@.len(),
        ensures
            lo <= w < hi,
            is_victim(self.lines@, lo as int, hi as int, w as int),
    {
        let mut lru_way = lo;
        let mut lru_used = usize::MAX;
        let mut way = lo;
        while way < hi
            invariant
                lo <= way <= hi,
                hi <= self.lines@.len(),
                lo <= lru_way < hi,
                lru_way < way || (lru_way == lo && lru_used == usize::MAX),
                forall|j: int| lo <= j < way ==> #[trigger] present(self.lines@, j),
                lru_way < way ==> present(self.lines@, lru_way as int)
                    && at(self.lines@, lru_way as int).last_used == lru_used,
                forall|j: int| lo <= j < way ==> lru_used <= #[trigger] at(self.lines@, j).last_used,
                forall|j: int| lo <= j < lru_way ==> lru_used < #[trigger] at(self.lines@, j).last_used,
            decreases hi - way,
        {
            match &self.lines[way] {
                None => {
                    return way;
                },
                Some(line) => {
                    if line.last_used < lru_used {
                        lru_used = line.last_used;
                        lru_way = way;
                    }
                },
            }
            way = way + 1;
        }
        lru_way
    }

    /// Appends an access to the trace, if the cache is traced.
    fn record_access(
        &mut self,
        requester: SecurityClass,
        kind: CacheAccessKind,
        addr: usize,
        set: usize,
        hit: bool,
        slice: usize,
        evicted: Option<EvictedSummary>,
    )
        ensures
            *final(self) == (Self { trace: final(self).trace, ..*old(self) }),
            (final(self).trace is Some) == (old(self).trace is Some),
            final(self).trace_spec() == match old(self).trace_spec() {
                Some(events) => Some(events.push(CacheAccessEvent {
                    architecture: "smtcache",
                    requester,
                    requester_pid: old(self).requester_pid,
                    requester_domain: old(self).requester_domain_id,
                    kind,
                    addr,
                    set: Some(set),
                    hit,
                    source: if hit { CacheAccessSource::L1D } else { CacheAccessSource::Lower },
                    evicted_owner: match evicted { Some(e) => Some(e.0), None => None },
                    evicted_pid: match evicted { Some(e) => Some(e.1), None => None },
                    evicted_domain: match evicted { Some(e) => Some(e.2), None => None },
                    evicted_addr: match evicted { Some(e) => Some(e.3), None => None },
                    slice: Some(slice),
                    writebacks: match evicted { Some(e) => if e.4 { 1u64 } else { 0u64 }, None => 0u64 },
                })),
                None => None,
            },
    {
        let event = CacheAccessEvent {
            architecture: "smtcache",
            requester,
            requester_pid: self.requester_pid,
            requester_domain: self.requester_domain_id,
            kind,
            addr,
            set: Some(set),
            hit,
            source: if hit { CacheAccessSource::L1D } else { CacheAccessSource::Lower },
            evicted_owner: match evicted { Some(e) => Some(e.0), None => None },
            evicted_pid: match evicted { Some(e) => Some(e.1), None => None },
            evicted_domain: match evicted { Some(e) => Some(e.2), None => None },
            evicted_addr: match evicted { Some(e) => Some(e.3), None => None },
            slice: Some(slice),
            writebacks: match evicted { Some(e) => if e.4 { 1u64 } else { 0u64 }, None => 0u64 },
        };
        match &mut self.trace {
            Some(t) => t.record(event),
            None => {},
        }
    }
}

impl<M: MemoryDevice> SmtCacheMemory<M> {
    /// With every line in the current class's slice `s`, a line that the
    /// ways of its set in `s` do not hold is not resident at all.
    proof fn lemma_not_held(&self, b: int, s: int, set: int, lo: int, hi: int)
        requires
            self.state_wf(),
            self.single_class(),
            0 <= s < self.slice_count,
            self.owners@[s] == Some(self.active_domain),
            set == self.set_of(b),
            lo == s * self.slice_size() + set * self.associativity,
            hi == lo + self.associativity,
            forall|j: int| lo <= j < hi ==> !#[trigger] holds(self.lines@, j, b),
        ensures
            !holds_base(self.lines@, b),
    {
        if holds_base(self.lines@, b) {
            let j = choose|j: int| holds(self.lines@, j, b);
            assert(present(self.lines@, j));
            self.lemma_slice_bound(j);
            assert(self.owners@[self.slice_of(j)] == Some(self.active_domain));
            assert(self.slice_of(j) == s);
            lemma_slot_range(j, s, set, self.num_sets as int, self.associativity as int);
        }
    }

    /// Putting a line of set `set` into an empty way of that set in slice
    /// `s`, where no other way of the set holds it, keeps the cache well formed.
    proof fn lemma_put_wf(s2: Self, s3: Self, v: int, l: CachedLine, s: int, set: int, lo: int, hi: int)
        requires
            s2.state_wf(),
            s3.lines@ == s2.lines@.update(v, Some(l)),
            !present(s2.lines@, v),
            s3.line_size == s2.line_size,
            s3.num_sets == s2.num_sets,
            s3.associativity == s2.associativity,
            s3.slice_count == s2.slice_count,
            s3.owners == s2.owners,
            s3.slice_used == s2.slice_used,
            s3.backing == s2.backing,
            0 <= s < s2.slice_count,
            0 <= set < s2.num_sets,
            s2.owners@[s] is Some,
            lo == s * s2.slice_size() + set * s2.associativity,
            hi == lo + s2.associativity,
            lo <= v < hi,
            l.data@.len() == s2.line_len(),
            (l.base_addr as int) % s2.line_len() == 0,
            l.base_addr + s2.line_len() <= s2.mem_len(),
            line_accessible(s2.backing, l.base_addr as int, s2.line_len()),
            s2.set_of(l.base_addr as int) == set,
            forall|j: int| lo <= j < hi && j != v ==> !#[trigger] holds(s2.lines@, j, l.base_addr as int),
        ensures
            s3.state_wf(),
    {
        let t2 = s2.lines@;
        let t3 = s3.lines@;
        lemma_slice_slot(s, set, v - lo, s2.num_sets as int, s2.associativity as int, s2.slice_count as int);
        assert forall|i: int| #[trigger] present(t3, i) implies {
            &&& at(t3, i).data@.len() == s3.line_len()
            &&& (at(t3, i).base_addr as int) % s3.line_len() == 0
            &&& at(t3, i).base_addr + s3.line_len() <= s3.mem_len()
            &&& line_accessible(s3.backing, at(t3, i).base_addr as int, s3.line_len())
            &&& s3.set_of(at(t3, i).base_addr as int) == s3.slot_set(i)
            &&& s3.owners@[s3.slice_of(i)] is Some
        } by {
            if i != v {
                assert(present(t2, i));
            }
        }
        assert forall|i: int, j: int|
            #![trigger present(t3, i), present(t3, j)]
            present(t3, i) && present(t3, j) && s3.slice_of(i) == s3.slice_of(j)
                && at(t3, i).base_addr == at(t3, j).base_addr implies i == j by {
            if i != v && j != v {
                assert(present(t2, i) && present(t2, j));
            } else if i == v && j != v {
                assert(present(t2, j));
                lemma_slot_range(j, s, set, s2.num_sets as int, s2.associativity as int);
                assert(holds(t2, j, l.base_addr as int));
            } else if i != v && j == v {
                assert(present(t2, i));
                lemma_slot_range(i, s, set, s2.num_sets as int, s2.associativity as int);
                assert(holds(t2, i, l.base_addr as int));
            }
        }
    }

    /// Reads the line `base` from the level below into an empty way `v`.
    fn fill_way(&mut self, v: usize, base: usize, requester: SecurityClass, use_count: usize, s: usize, set: usize, lo: usize, hi: usize, clock: &mut Clock) -> (data: Ghost<Seq<u8>>)
        requires
            old(self).state_wf(),
            !present(old(self).lines@, v as int),
            s < old(self).slice_count,
            set < old(self).num_sets,
            old(self).owners@[s as int] == Some(old(self).active_domain),
            lo == s * old(self).slice_size() + set * old(self).associativity,
            hi == lo + old(self).associativity,
            lo <= v < hi,
            (base as int) % old(self).line_len() == 0,
            base + old(self).line_len() <= old(self).mem_len(),
            line_accessible(old(self).backing, base as int, old(self).line_len()),
            old(self).set_of(base as int) == set,
            forall|j: int| lo <= j < hi && j != v ==> !#[trigger] holds(old(self).lines@, j, base as int),
            old(self).state_coherent() ==> !holds_base(old(self).lines@, base as int),
        ensures
            final(self).trace == old(self).trace,
            final(self).state_wf(),
            final(self).same_frame(old(self)),
            final(self).use_counter == old(self).use_counter,
            final(self).owners == old(self).owners,
            final(clock)@ >= old(clock)@,
            old(self).backing.fixed_costs() matches Some(c) ==> final(clock)@ == tick_by(
                old(clock)@,
                old(self).line_len() * c.0,
            ),
            present(final(self).lines@, v as int),
            at(final(self).lines@, v as int).base_addr == base,
            !at(final(self).lines@, v as int).dirty,
            at(final(self).lines@, v as int).data@ == data@,
            final(self).lines@ == old(self).lines@.update(v as int, final(self).lines@[v as int]),
            data@.len() == old(self).line_len(),
            old(self).state_coherent() ==> {
                &&& final(self).state_coherent()
                &&& final(self).full_view() == old(self).full_view()
                &&& forall|k: int| 0 <= k < old(self).line_len() ==> #[trigger] data@[k] == old(self).full_view()[base + k]
                &&& forall|k: int| 0 <= k < old(self).line_len() ==> #[trigger] data@[k] == old(self).backing.view()[base + k]
            },
    {
        let ghost s0 = *self;
        let ghost ls = self.line_len();
        let ghost n = self.mem_len();
        let data = read_line(&mut self.backing, &mut self.pending, base, self.line_size, clock);
        let ghost sx = *self;
        proof {
            self.lemma_lines_backing(s0);
        }
        let ghost d = data@;
        let line = CachedLine {
            base_addr: base,
            data,
            dirty: false,
            last_used: use_count,
            used: false,
            owner: requester,
            owner_pid: self.requester_pid,
            owner_domain: self.requester_domain_id,
            rmt_id: 0,
            logical_index: 0,
            logical_tag: 0,
        };
        proof {
            lemma_slice_slot(s as int, set as int, v - lo, self.num_sets as int, self.associativity as int, self.slice_count as int);
        }
        put_slot(&mut self.lines, v, line);
        proof {
            assert(line_accessible(sx.backing, base as int, ls)) by {
                assert forall|k: int| 0 <= k < ls implies #[trigger] sx.backing.accessible(base + k) by {
                    assert(s0.backing.accessible(base + k));
                }
            }
            Self::lemma_put_wf(sx, *self, v as int, line, s as int, set as int, lo as int, hi as int);
            if s0.state_coherent() {
                let t = sx.lines@;
                let m = sx.backing.view();
                sx.lemma_unique();
                assert forall|j: int| j != v implies !#[trigger] holds(t, j, base as int) by {}
                lemma_overlay_put(t, ls, n, m, v as int, line);
                lemma_unheld_line(t, ls, n, m, base as int, d);
                lemma_clean_put(t, ls, m, v as int, line);
                assert forall|i: int| #[trigger] present(self.lines@, i) implies self.owners@[self.slice_of(i)]
                    == Some(self.active_domain) by {
                    if i != v {
                        assert(present(t, i));
                    } else {
                        lemma_slice_slot(s as int, set as int, v - lo, self.num_sets as int, self.associativity as int, self.slice_count as int);
                    }
                }
            }
        }
        Ghost(d)
    }
}

impl<M: MemoryDevice> SmtCacheMemory<M> {
    /// Makes room in the ways `lo..hi` of slice `s` and reads the line
    /// `base` into it; returns the way and what was evicted from it.
    fn miss_fill(&mut self, base: usize, requester: SecurityClass, use_count: usize, s: usize, set: usize, lo: usize, hi: usize, clock: &mut Clock) -> (res: (usize, Option<EvictedSummary>))
        requires
            old(self).state_wf(),
            s < old(self).slice_count,
            set < old(self).num_sets,
            old(self).owners@[s as int] == Some(old(self).active_domain),
            lo == s * old(self).slice_size() + set * old(self).associativity,
            hi == lo + old(self).associativity,
            (base as int) % old(self).line_len() == 0,
            base + old(self).line_len() <= old(self).mem_len(),
            line_accessible(old(self).backing, base as int, old(self).line_len()),
            old(self).set_of(base as int) == set,
            forall|j: int| lo <= j < hi ==> !#[trigger] holds(old(self).lines@, j, base as int),
        ensures
            final(self).trace == old(self).trace,
            final(self).state_wf(),
            final(self).same_frame(old(self)),
            final(self).use_counter == old(self).use_counter,
            final(self).owners == old(self).owners,
            final(self).lines@.len() == old(self).lines@.len(),
            forall|i: int| 0 <= i < old(self).lines@.len() && !(lo <= i < hi) ==> final(self).lines@[i] == old(self).lines@[i],
            lo <= res.0 < hi,
            holds(final(self).lines@, res.0 as int, base as int),
            final(clock)@ >= old(clock)@,
            (exists|j: int| lo <= j < hi && !#[trigger] present(old(self).lines@, j)) ==> (old(self).backing.fixed_costs() matches Some(c)
                ==> final(clock)@ == tick_by(old(clock)@, old(self).line_len() * c.0)),
            old(self).state_coherent() ==> {
                &&& final(self).state_coherent()
                &&& final(self).full_view() == old(self).full_view()
            },
    {
        let ghost s0 = *self;
        let ghost ls = self.line_len();
        proof {
            lemma_slice_slot(s as int, set as int, 0, self.num_sets as int, self.associativity as int, self.slice_count as int);
            lemma_slice_slot(s as int, set as int, self.associativity - 1, self.num_sets as int, self.associativity as int, self.slice_count as int);
        }
        let victim = self.find_victim(lo, hi);
        let evicted: Option<EvictedSummary> = match &self.lines[victim] {
            Some(l) => Some((l.owner, l.owner_pid, l.owner_domain, l.base_addr, l.dirty)),
            None => None,
        };
        proof {
            if exists|j: int| lo <= j < hi && !#[trigger] present(s0.lines@, j) {
                let j = choose|j: int| lo <= j < hi && !#[trigger] present(s0.lines@, j);
                assert(!present(s0.lines@, victim as int));
            }
        }
        if evicted.is_some() {
            self.remove_slot(victim, clock);
        }
        let ghost s1 = *self;
        proof {
            assert forall|j: int| lo <= j < hi && j != victim implies !#[trigger] holds(s1.lines@, j, base as int) by {
                assert(!holds(s0.lines@, j, base as int));
            }
            assert(line_accessible(s1.backing, base as int, ls)) by {
                assert forall|k: int| 0 <= k < ls implies #[trigger] s1.backing.accessible(base + k) by {
                    assert(s0.backing.accessible(base + k));
                }
            }
            if s1.state_coherent() {
                assert forall|j: int| lo <= j < hi implies !#[trigger] holds(s1.lines@, j, base as int) by {
                    if j != victim {
                        assert(!holds(s0.lines@, j, base as int));
                    }
                }
                s1.lemma_not_held(base as int, s as int, set as int, lo as int, hi as int);
            }
        }
        let _ = self.fill_way(victim, base, requester, use_count, s, set, lo, hi, clock);
        proof {
            Self::lemma_frame_trans(s0, s1, *self);
        }
        (victim, evicted)
    }

    /// Reads the byte at `addr` from the line in way `w`, marking it used.
    fn read_way(&mut self, w: usize, addr: usize, use_count: usize) -> (r: u8)
        requires
            old(self).state_wf(),
            old(self).can_access(addr as int),
            holds(old(self).lines@, w as int, old(self).base_of(addr as int)),
        ensures
            final(self).trace == old(self).trace,
            final(self).state_wf(),
            final(self).same_frame(old(self)),
            final(self).lines@ == old(self).lines@.update(w as int, final(self).lines@[w as int]),
            final(self).owners == old(self).owners,
            holds(final(self).lines@, w as int, final(self).base_of(addr as int)),
            old(self).state_coherent() ==> {
                &&& final(self).state_coherent()
                &&& final(self).full_view() == old(self).full_view()
                &&& r == old(self).full_view()[addr as int]
            },
    {
        let ghost s0 = *self;
        let ghost ls = self.line_len();
        let ghost n = self.mem_len();
        let ghost a = addr as int;
        proof {
            self.lemma_can_access(a);
        }
        let base = self.line_base(addr);
        let offset = addr - base;
        let slot = take_slot(&mut self.lines, w);
        match slot {
            Some(mut line) => {
                proof {
                    assert(present(s0.lines@, w as int));
                }
                line.last_used = use_count;
                let byte = line.data[offset];
                put_slot(&mut self.lines, w, line);
                proof {
                    let o = s0.lines@;
                    let now = self.lines@;
                    assert(now =~= o.update(w as int, Some(line)));
                    assert forall|i: int| #[trigger] present(now, i) implies present(o, i)
                        && at(now, i).base_addr == at(o, i).base_addr
                        && at(now, i).data@ == at(o, i).data@ && at(now, i).dirty == at(o, i).dirty by {}
                    assert forall|i: int| #[trigger] present(o, i) implies present(now, i) by {}
                    assert forall|i: int, j: int|
                        #![trigger present(now, i), present(now, j)]
                        present(now, i) && present(now, j) && self.slice_of(i) == self.slice_of(j)
                            && at(now, i).base_addr == at(now, j).base_addr implies i == j by {
                        assert(present(o, i) && present(o, j));
                    }
                    if s0.state_coherent() {
                        s0.lemma_unique();
                        assert(covers(o, ls, w as int, a));
                        lemma_overlay_hit(o, ls, n, s0.backing.view(), w as int, a);
                        lemma_same_content(o, now, ls, n, s0.backing.view());
                    }
                }
                byte
            },
            None => {
                proof {
                    assert(false);
                }
                0
            },
        }
    }

    /// Writes `value` at `addr` into the line in way `w`, marking it used
    /// and dirty.
    fn write_way(&mut self, w: usize, addr: usize, value: u8, use_count: usize)
        requires
            old(self).state_wf(),
            old(self).can_access(addr as int),
            holds(old(self).lines@, w as int, old(self).base_of(addr as int)),
        ensures
            final(self).trace == old(self).trace,
            final(self).state_wf(),
            final(self).same_frame(old(self)),
            final(self).lines@ == old(self).lines@.update(w as int, final(self).lines@[w as int]),
            final(self).owners == old(self).owners,
            holds(final(self).lines@, w as int, final(self).base_of(addr as int)),
            old(self).state_coherent() ==> {
                &&& final(self).state_coherent()
                &&& final(self).full_view() == old(self).full_view().update(addr as int, value)
            },
    {
        let ghost s0 = *self;
        let ghost ls = self.line_len();
        let ghost n = self.mem_len();
        let ghost a = addr as int;
        proof {
            self.lemma_can_access(a);
        }
        let base = self.line_base(addr);
        let offset = addr - base;
        let slot = take_slot(&mut self.lines, w);
        match slot {
            Some(mut line) => {
                proof {
                    assert(present(s0.lines@, w as int));
                }
                line.last_used = use_count;
                line.dirty = true;
                line.data.set(offset, value);
                put_slot(&mut self.lines, w, line);
                proof {
                    let o = s0.lines@;
                    let now = self.lines@;
                    assert(now =~= o.update(w as int, Some(line)));
                    assert forall|i: int| #[trigger] present(now, i) implies present(o, i)
                        && at(now, i).base_addr == at(o, i).base_addr
                        && at(now, i).data@.len() == at(o, i).data@.len() by {}
                    assert forall|i: int, j: int|
                        #![trigger present(now, i), present(now, j)]
                        present(now, i) && present(now, j) && self.slice_of(i) == self.slice_of(j)
                            && at(now, i).base_addr == at(now, j).base_addr implies i == j by {
                        assert(present(o, i) && present(o, j));
                    }
                    if s0.state_coherent() {
                        s0.lemma_unique();
                        assert(covers(o, ls, w as int, a));
                        lemma_overlay_write(o, ls, n, s0.backing.view(), w as int, a, value, line);
                        lemma_clean_put(o, ls, s0.backing.view(), w as int, line);
                        assert forall|i: int| #[trigger] present(now, i) implies self.owners@[self.slice_of(i)]
                            == Some(self.active_domain) by {
                            assert(present(o, i));
                        }
                    }
                }
            },
            None => {
                proof {
                    assert(false);
                }
            },
        }
    }

    /// Finds or brings in the way that holds the line of `addr` in the
    /// current class's slice; returns the slice, the set, the way, whether
    /// it hit, and what a miss evicted.
    fn locate(&mut self, addr: usize, requester: SecurityClass, use_count: usize, clock: &mut Clock) -> (res: (usize, usize, usize, bool, Option<EvictedSummary>))
        requires
            old(self).state_wf(),
            old(self).can_access(addr as int),
            requester == old(self).active_domain,
        ensures
            res.3 ==> res.4 is None,
            (exists|t: int| 0 <= t < old(self).slice_count && #[trigger] is_owner(old(self).owners@[t], old(self).active_domain)) ==> final(self).trace == old(self).trace,
            final(self).state_wf(),
            final(self).same_frame(old(self)),
            final(self).can_access(addr as int),
            res.0 < final(self).slice_count,
            final(self).slice_of(res.2 as int) == res.0,
            final(self).owners@[res.0 as int] == Some(final(self).active_domain),
            (exists|t: int| 0 <= t < old(self).slice_count && #[trigger] is_owner(old(self).owners@[t], old(self).active_domain))
                ==> {
                &&& final(self).owners@ == old(self).owners@
                &&& final(self).lines@.len() == old(self).lines@.len()
                &&& forall|i: int| 0 <= i < old(self).lines@.len() && old(self).slice_of(i) != res.0 ==> final(self).lines@[i] == old(self).lines@[i]
            },
            holds(final(self).lines@, res.2 as int, final(self).base_of(addr as int)),
            old(self).room_for_requester(addr as int) && !old(self).held_for_requester(old(self).base_of(addr as int))
                ==> (old(self).backing.fixed_costs() matches Some(c) ==> final(clock)@ == tick_by(
                old(clock)@,
                old(self).line_len() * c.0,
            )),
            old(self).room_for_requester(addr as int) && res.3 ==> old(self).held_for_requester(old(self).base_of(addr as int)),
            final(self).owners@ == old(self).owners@.update(res.0 as int, Some(old(self).active_domain)),
            final(self).lines@.len() == old(self).lines@.len(),
            forall|i: int| 0 <= i < old(self).lines@.len() && old(self).outside_slice(i, res.0 as int)
                ==> #[trigger] final(self).lines@[i] == old(self).lines@[i],
            final(clock)@ >= old(clock)@,
            old(self).held_for_requester(old(self).base_of(addr as int)) ==> res.3 && final(clock)@ == old(clock)@,
            old(self).state_coherent() ==> {
                &&& final(self).state_coherent()
                &&& final(self).full_view() == old(self).full_view()
            },
    {
        proof {
            if old(self).held_for_requester(old(self).base_of(addr as int)) {
                let j = choose|j: int| holds(old(self).lines@, j, old(self).base_of(addr as int))
                    && #[trigger] is_owner(old(self).owners@[old(self).slice_of(j)], old(self).active_domain);
                old(self).lemma_slice_bound(j);
                assert(is_owner(old(self).owners@[old(self).slice_of(j)], old(self).active_domain));
            }
        }
        let s = self.active_slice_index(use_count, clock);
        let ghost s0 = *self;
        proof {
            assert forall|k: int| 0 <= k < self.line_len() implies #[trigger] self.backing.accessible(self.base_of(addr as int) + k) by {
                assert(old(self).backing.accessible(old(self).base_of(addr as int) + k));
            }
            self.lemma_can_access(addr as int);
        }
        let base = self.line_base(addr);
        let set = self.set_index(addr);
        let ss = self.num_sets * self.associativity;
        proof {
            lemma_slice_slot(s as int, set as int, 0, self.num_sets as int, self.associativity as int, self.slice_count as int);
            lemma_slice_slot(s as int, set as int, self.associativity - 1, self.num_sets as int, self.associativity as int, self.slice_count as int);
        }
        let lo = s * ss + set * self.associativity;
        let hi = lo + self.associativity;
        proof {
            if old(self).held_for_requester(old(self).base_of(addr as int)) {
                let j = choose|j: int| holds(old(self).lines@, j, old(self).base_of(addr as int))
                    && #[trigger] is_owner(old(self).owners@[old(self).slice_of(j)], old(self).active_domain);
                old(self).lemma_slice_bound(j);
                assert(present(s0.lines@, j));
                assert(s0.owners@[s0.slice_of(j)] == s0.owners@[s as int]);
                assert(s0.slice_of(j) == s);
                lemma_slot_range(j, s as int, set as int, self.num_sets as int, self.associativity as int);
                assert(holds(self.lines@, j, base as int));
            }
        }
        proof {
            if old(self).room_for_requester(addr as int) {
                let (t, j) = choose|t: int, j: int|
                    #![trigger is_owner(old(self).owners@[t], old(self).active_domain), present(old(self).lines@, j)]
                    0 <= t < old(self).slice_count && is_owner(old(self).owners@[t], old(self).active_domain)
                        && t * old(self).slice_size() + old(self).set_of(old(self).base_of(addr as int)) * old(self).associativity <= j
                        && j < t * old(self).slice_size() + old(self).set_of(old(self).base_of(addr as int)) * old(self).associativity
                        + old(self).associativity && !present(old(self).lines@, j);
                assert(is_owner(old(self).owners@[t], old(self).active_domain));
                assert(is_owner(old(self).owners@[s as int], old(self).active_domain));
                assert(old(self).owners@[t] == old(self).owners@[s as int]);
                assert(t == s);
                assert(lo <= j < hi);
                assert(!present(self.lines@, j));
            }
        }
        let res = match find_in(&self.lines, lo, hi, base) {
            Some(w) => {
                proof {
                    if old(self).room_for_requester(addr as int) {
                        lemma_slice_slot(s as int, set as int, w - lo, self.num_sets as int, self.associativity as int, self.slice_count as int);
                        assert(self.slice_of(w as int) == s);
                        assert(holds(old(self).lines@, w as int, old(self).base_of(addr as int)));
                        assert(is_owner(old(self).owners@[old(self).slice_of(w as int)], old(self).active_domain));
                    }
                }
                (s, set, w, true, None)
            },
            None => {
                let (w, evicted) = self.miss_fill(base, requester, use_count, s, set, lo, hi, clock);
                proof {
                    Self::lemma_frame_trans(*old(self), s0, *self);
                }
                (s, set, w, false, evicted)
            },
        };
        proof {
            assert forall|k: int| 0 <= k < self.line_len() implies #[trigger] self.backing.accessible(self.base_of(addr as int) + k) by {
                assert(old(self).backing.accessible(old(self).base_of(addr as int) + k));
            }
            lemma_slice_slot(s as int, set as int, res.2 - lo, self.num_sets as int, self.associativity as int, self.slice_count as int);
            assert forall|i: int| 0 <= i < old(self).lines@.len() && old(self).slice_of(i) != s implies !(lo <= i < hi) by {
                if lo <= i < hi {
                    lemma_slice_slot(s as int, set as int, i - lo, self.num_sets as int, self.associativity as int, self.slice_count as int);
                }
            }
        }
        res
    }

    fn load_u8_internal(&mut self, addr: usize, charge_timing: bool, clock: &mut Clock) -> (r: u8)
        requires
            old(self).state_wf(),
            old(self).can_access(addr as int),
        ensures
            old(self).pending@.len() == 0 && old(self).room_for_requester(addr as int) && !old(self).held_for_requester(
                old(self).base_of(addr as int),
            ) ==> (old(self).backing.fixed_costs() matches Some(c) ==> final(clock)@ == tick_by(
                old(clock)@,
                old(self).line_len() * c.0 + (if charge_timing && old(self).timed { old(self).timing.load_miss as int } else { 0 }),
            )),
            final(self).held_for_requester(old(self).base_of(addr as int)),
            old(self).pending@.len() == 0 ==> forall|i: int|
                0 <= i < old(self).lines@.len() && final(self).owners@[old(self).slice_of(i)] == old(self).owners@[old(self).slice_of(i)]
                    && !is_owner(old(self).owners@[old(self).slice_of(i)], old(self).active_domain)
                    ==> #[trigger] final(self).lines@[i] == old(self).lines@[i],
            final(self).state_wf(),
            final(self).same_frame(old(self)),
            old(self).pending@.len() == 0 && (exists|t: int| 0 <= t < old(self).slice_count
                && #[trigger] is_owner(old(self).owners@[t], old(self).active_domain)) ==> {
                &&& final(self).owners@ == old(self).owners@
                &&& final(self).lines@.len() == old(self).lines@.len()
                &&& forall|i: int| 0 <= i < old(self).lines@.len() && !is_owner(old(self).owners@[old(self).slice_of(i)], old(self).active_domain)
                    ==> final(self).lines@[i] == old(self).lines@[i]
            },
            old(self).pending@.len() == 0 && old(self).held_for_requester(old(self).base_of(addr as int))
                ==> final(clock)@ == saturating_tick(old(clock)@, if charge_timing && old(self).timed { old(self).timing.load_hit } else { 0 }),
            (exists|t: int| 0 <= t < old(self).slice_count && #[trigger] is_owner(old(self).owners@[t], old(self).active_domain))
                ==> records_access(
                old(self).trace_spec(),
                final(self).trace_spec(),
                "smtcache",
                old(self).requester_class(),
                old(self).requester_pid(),
                old(self).requester_domain(),
                CacheAccessKind::Load,
                addr,
            ),
            old(self).pending@.len() == 0 && old(self).held_for_requester(old(self).base_of(addr as int))
                && old(self).trace_spec() is Some ==> last_access_hit(final(self).trace_spec()),
            final(clock)@ >= old(clock)@,
            old(self).state_coherent() ==> {
                &&& final(self).state_coherent()
                &&& final(self).full_view() == old(self).full_view()
                &&& r == old(self).full_view()[addr as int]
            },
    {
        self.apply_pending(clock);
        let ghost s0 = *self;
        proof {
            assert forall|k: int| 0 <= k < self.line_len() implies #[trigger] self.backing.accessible(self.base_of(addr as int) + k) by {
                assert(old(self).backing.accessible(old(self).base_of(addr as int) + k));
            }
        }
        let requester = self.active_domain;
        let use_count = self.next_use_counter();
        let ghost sx = *self;
        proof {
            if old(self).pending@.len() == 0 && old(self).held_for_requester(old(self).base_of(addr as int)) {
                let j = choose|j: int| holds(old(self).lines@, j, old(self).base_of(addr as int))
                    && #[trigger] is_owner(old(self).owners@[old(self).slice_of(j)], old(self).active_domain);
                assert(holds(sx.lines@, j, sx.base_of(addr as int)));
                assert(is_owner(sx.owners@[sx.slice_of(j)], sx.active_domain));
            }
        }
        let (s, set, w, hit, evicted) = self.locate(addr, requester, use_count, clock);
        let ghost c_located = clock@;
        let ghost s1 = *self;
        let byte = self.read_way(w, addr, use_count);
        proof {
            Self::lemma_frame_trans(*old(self), s0, s1);
            Self::lemma_frame_trans(*old(self), s1, *self);
        }
        if charge_timing {
            if hit {
                self.charge(self.timing.load_hit, clock);
            } else {
                self.charge(self.timing.load_miss, clock);
            }
        }
        self.record_access(requester, CacheAccessKind::Load, addr, set, hit, s, evicted);
        proof {
            if old(self).pending@.len() == 0 && old(self).room_for_requester(addr as int) && !old(self).held_for_requester(
                old(self).base_of(addr as int),
            ) {
                if let Some(c) = old(self).backing.fixed_costs() {
                    assert(sx.room_for_requester(addr as int));
                    assert(!sx.held_for_requester(sx.base_of(addr as int)));
                    assert(!hit);
                    let m: int = if charge_timing && old(self).timed { old(self).timing.load_miss as int } else { 0 };
                    lemma_tick_by_twice(old(clock)@, old(self).line_len() * c.0, m);
                }
            }
            assert(is_owner(self.owners@[self.slice_of(w as int)], self.active_domain));
            assert(holds(self.lines@, w as int, old(self).base_of(addr as int)));
        }
        proof {
            if old(self).pending@.len() == 0 {
                assert(sx.lines@ == old(self).lines@);
                assert(sx.owners@ == old(self).owners@);
                assert(self.owners@ == s1.owners@);
                assert forall|i: int|
                    0 <= i < old(self).lines@.len() && self.owners@[old(self).slice_of(i)] == old(self).owners@[old(self).slice_of(i)]
                        && !is_owner(old(self).owners@[old(self).slice_of(i)], old(self).active_domain)
                    implies #[trigger] self.lines@[i] == old(self).lines@[i] by {
                    if old(self).slice_of(i) == s {
                        assert(s1.owners@[s as int] == Some(s1.active_domain));
                    }
                    let ns = sx.num_sets as int;
                    let asz = sx.associativity as int;
                    assert(ns * asz > 0) by (nonlinear_arith)
                        requires
                            ns > 0,
                            asz > 0,
                    ;
                    lemma_outside_slice(i, s as int, old(self).slice_size());
                    assert(sx.outside_slice(i, s as int));
                    assert(i != w);
                    assert(s1.lines@[i] == sx.lines@[i]);
                }
            }
        }
        proof {
            if old(self).pending@.len() == 0 && (exists|t: int| 0 <= t < old(self).slice_count
                && #[trigger] is_owner(old(self).owners@[t], old(self).active_domain)) {
                let t = choose|t: int| 0 <= t < old(self).slice_count
                    && #[trigger] is_owner(old(self).owners@[t], old(self).active_domain);
                assert(is_owner(s0.owners@[t], s0.active_domain));
                assert(is_owner(sx.owners@[t], sx.active_domain));
                assert forall|i: int| 0 <= i < old(self).lines@.len() && !is_owner(old(self).owners@[old(self).slice_of(i)], old(self).active_domain)
                    implies self.lines@[i] == old(self).lines@[i] by {
                    assert(s1.owners@[s as int] == Some(s1.active_domain));
                    assert(old(self).slice_of(i) != s);
                    assert(sx.slice_of(i) != s);
                    assert(s1.lines@[i] == sx.lines@[i]);
                    assert(i != w);
                }
            }
        }
        byte
    }

    fn store_u8_internal(&mut self, addr: usize, value: u8, charge_timing: bool, clock: &mut Clock)
        requires
            old(self).state_wf(),
            old(self).can_access(addr as int),
        ensures
            old(self).pending@.len() == 0 && old(self).room_for_requester(addr as int) && !old(self).held_for_requester(
                old(self).base_of(addr as int),
            ) ==> (old(self).backing.fixed_costs() matches Some(c) ==> final(clock)@ == tick_by(
                old(clock)@,
                old(self).line_len() * c.0 + (if charge_timing && old(self).timed { old(self).timing.store_miss as int } else { 0 }),
            )),
            final(self).held_for_requester(old(self).base_of(addr as int)),
            old(self).pending@.len() == 0 ==> forall|i: int|
                0 <= i < old(self).lines@.len() && final(self).owners@[old(self).slice_of(i)] == old(self).owners@[old(self).slice_of(i)]
                    && !is_owner(old(self).owners@[old(self).slice_of(i)], old(self).active_domain)
                    ==> #[trigger] final(self).lines@[i] == old(self).lines@[i],
            final(self).state_wf(),
            final(self).same_frame(old(self)),
            old(self).pending@.len() == 0 && (exists|t: int| 0 <= t < old(self).slice_count
                && #[trigger] is_owner(old(self).owners@[t], old(self).active_domain)) ==> {
                &&& final(self).owners@ == old(self).owners@
                &&& final(self).lines@.len() == old(self).lines@.len()
                &&& forall|i: int| 0 <= i < old(self).lines@.len() && !is_owner(old(self).owners@[old(self).slice_of(i)], old(self).active_domain)
                    ==> final(self).lines@[i] == old(self).lines@[i]
            },
            old(self).pending@.len() == 0 && old(self).held_for_requester(old(self).base_of(addr as int))
                ==> final(clock)@ == saturating_tick(old(clock)@, if charge_timing && old(self).timed { old(self).timing.store_hit } else { 0 }),
            (exists|t: int| 0 <= t < old(self).slice_count && #[trigger] is_owner(old(self).owners@[t], old(self).active_domain))
                ==> records_access(
                old(self).trace_spec(),
                final(self).trace_spec(),
                "smtcache",
                old(self).requester_class(),
                old(self).requester_pid(),
                old(self).requester_domain(),
                CacheAccessKind::Store,
                addr,
            ),
            old(self).pending@.len() == 0 && old(self).held_for_requester(old(self).base_of(addr as int))
                && old(self).trace_spec() is Some ==> last_access_hit(final(self).trace_spec()),
            final(clock)@ >= old(clock)@,
            old(self).state_coherent() ==> {
                &&& final(self).state_coherent()
                &&& final(self).full_view() == old(self).full_view().update(addr as int, value)
            },
    {
        self.apply_pending(clock);
        let ghost s0 = *self;
        proof {
            assert forall|k: int| 0 <= k < self.line_len() implies #[trigger] self.backing.accessible(self.base_of(addr as int) + k) by {
                assert(old(self).backing.accessible(old(self).base_of(addr as int) + k));
            }
        }
        let requester = self.active_domain;
        let use_count = self.next_use_counter();
        let ghost sx = *self;
        proof {
            if old(self).pending@.len() == 0 && old(self).held_for_requester(old(self).base_of(addr as int)) {
                let j = choose|j: int| holds(old(self).lines@, j, old(self).base_of(addr as int))
                    && #[trigger] is_owner(old(self).owners@[old(self).slice_of(j)], old(self).active_domain);
                assert(holds(sx.lines@, j, sx.base_of(addr as int)));
                assert(is_owner(sx.owners@[sx.slice_of(j)], sx.active_domain));
            }
        }
        let (s, set, w, hit, evicted) = self.locate(addr, requester, use_count, clock);
        let ghost c_located = clock@;
        let ghost s1 = *self;
        self.write_way(w, addr, value, use_count);
        proof {
            Self::lemma_frame_trans(*old(self), s0, s1);
            Self::lemma_frame_trans(*old(self), s1, *self);
        }
        if charge_timing {
            if hit {
                self.charge(self.timing.store_hit, clock);
            } else {
                self.charge(self.timing.store_miss, clock);
            }
        }
        self.record_access(requester, CacheAccessKind::Store, addr, set, hit, s, evicted);
        proof {
            if old(self).pending@.len() == 0 && old(self).room_for_requester(addr as int) && !old(self).held_for_requester(
                old(self).base_of(addr as int),
            ) {
                if let Some(c) = old(self).backing.fixed_costs() {
                    assert(sx.room_for_requester(addr as int));
                    assert(!sx.held_for_requester(sx.base_of(addr as int)));
                    assert(!hit);
                    let m: int = if charge_timing && old(self).timed { old(self).timing.store_miss as int } else { 0 };
                    lemma_tick_by_twice(old(clock)@, old(self).line_len() * c.0, m);
                }
            }
            assert(is_owner(self.owners@[self.slice_of(w as int)], self.active_domain));
            assert(holds(self.lines@, w as int, old(self).base_of(addr as int)));
        }
        proof {
            if old(self).pending@.len() == 0 {
                assert(sx.lines@ == old(self).lines@);
                assert(sx.owners@ == old(self).owners@);
                assert(self.owners@ == s1.owners@);
                assert forall|i: int|
                    0 <= i < old(self).lines@.len() && self.owners@[old(self).slice_of(i)] == old(self).owners@[old(self).slice_of(i)]
                        && !is_owner(old(self).owners@[old(self).slice_of(i)], old(self).active_domain)
                    implies #[trigger] self.lines@[i] == old(self).lines@[i] by {
                    if old(self).slice_of(i) == s {
                        assert(s1.owners@[s as int] == Some(s1.active_domain));
                    }
                    let ns = sx.num_sets as int;
                    let asz = sx.associativity as int;
                    assert(ns * asz > 0) by (nonlinear_arith)
                        requires
                            ns > 0,
                            asz > 0,
                    ;
                    lemma_outside_slice(i, s as int, old(self).slice_size());
                    assert(sx.outside_slice(i, s as int));
                    assert(i != w);
                    assert(s1.lines@[i] == sx.lines@[i]);
                }
            }
        }
        proof {
            if old(self).pending@.len() == 0 && (exists|t: int| 0 <= t < old(self).slice_count
                && #[trigger] is_owner(old(self).owners@[t], old(self).active_domain)) {
                let t = choose|t: int| 0 <= t < old(self).slice_count
                    && #[trigger] is_owner(old(self).owners@[t], old(self).active_domain);
                assert(is_owner(s0.owners@[t], s0.active_domain));
                assert(is_owner(sx.owners@[t], sx.active_domain));
                assert forall|i: int| 0 <= i < old(self).lines@.len() && !is_owner(old(self).owners@[old(self).slice_of(i)], old(self).active_domain)
                    implies self.lines@[i] == old(self).lines@[i] by {
                    assert(s1.owners@[s as int] == Some(s1.active_domain));
                    assert(old(self).slice_of(i) != s);
                    assert(sx.slice_of(i) != s);
                    assert(s1.lines@[i] == sx.lines@[i]);
                    assert(i != w);
                }
            }
        }
    }
}

impl<M: MemoryDevice> SmtCacheMemory<M> {
    /// `self` holds the same lines in the same slices over the same level
    /// below as `other`.
    pub open spec fn same_lines(&self, other: &Self) -> bool {
        &&& self.wf() == other.wf()
        &&& self.view() == other.view()
        &&& forall|b: int| #[trigger] self.accessible(b) == other.accessible(b)
        &&& forall|b: int| #[trigger] self.holds_line(b) == other.holds_line(b)
        &&& forall|s: int| #[trigger] self.owner_of(s) == other.owner_of(s)
        &&& self.line_len() == other.line_len()
        &&& self.slice_total() == other.slice_total()
        &&& self.backing_spec() == other.backing_spec()
    }

    /// `self` is `other` up to configuration that no access reads.
    pub open spec fn same_cache(&self, other: &Self) -> bool {
        &&& self.same_lines(other)
        &&& self.coherent() == other.coherent()
        &&& self.requester_class() == other.requester_class()
    }

    /// How many slices the cache has.
    pub closed spec fn slice_total(&self) -> int {
        self.slice_count as int
    }

    /// An empty cache of `slice_count` slices, each of `num_sets` sets of
    /// `associativity` lines of `line_size` bytes, in front of `backing`,
    /// serving the high class.
    pub fn new(line_size: usize, num_sets: usize, associativity: usize, slice_count: usize, backing: M) -> (c: Self)
        requires
            line_size > 0,
            num_sets > 0,
            associativity > 0,
            slice_count > 0,
            slice_count * (num_sets * associativity) <= usize::MAX,
            backing.wf(),
        ensures
            c.wf(),
            c.view() == backing.view(),
            c.coherent() == backing_sound(backing),
            c.backing_spec() == backing,
            c.line_len() == line_size,
            c.slice_total() == slice_count,
            !c.is_timed(),
            c.timing_spec() == CacheTiming::default_spec(),
            c.trace_spec() is None,
            c.requester_class() == SecurityClass::High,
            forall|s: int| 0 <= s < slice_count ==> #[trigger] c.owner_of(s) is None,
            forall|b: int| #[trigger] c.holds_line(b) == backing.holds_line(b),
    {
        proof {
            assert(num_sets * associativity > 0) by (nonlinear_arith)
                requires
                    num_sets > 0,
                    associativity > 0,
            ;
            assert(num_sets * associativity <= slice_count * (num_sets * associativity)) by (nonlinear_arith)
                requires
                    slice_count > 0,
                    num_sets * associativity > 0,
            ;
        }
        let total = slice_count * (num_sets * associativity);
        let mut lines: Vec<Option<CachedLine>> = Vec::new();
        let mut i: usize = 0;
        while i < total
            invariant
                i <= total,
                lines@.len() == i,
                forall|j: int| 0 <= j < i ==> #[trigger] lines@[j] is None,
            decreases total - i,
        {
            lines.push(None);
            i = i + 1;
        }
        let mut owners: Vec<Option<SecurityClass>> = Vec::new();
        let mut slice_used: Vec<usize> = Vec::new();
        let mut k: usize = 0;
        while k < slice_count
            invariant
                k <= slice_count,
                owners@.len() == k,
                slice_used@.len() == k,
                forall|j: int| 0 <= j < k ==> #[trigger] owners@[j] is None,
            decreases slice_count - k,
        {
            owners.push(None);
            slice_used.push(0);
            k = k + 1;
        }
        let c = SmtCacheMemory {
            line_size,
            num_sets,
            associativity,
            slice_count,
            lines,
            owners,
            slice_used,
            active_domain: SecurityClass::High,
            requester_pid: 0,
            requester_domain_id: 0,
            use_counter: 0,
            backing,
            timed: false,
            timing: CacheTiming::default(),
            trace: None,
            pending: Vec::new(),
        };
        proof {
            assert forall|j: int| !#[trigger] present(c.lines@, j) by {
                if 0 <= j < c.lines@.len() {
                    assert(c.lines@[j] is None);
                }
            }
            assert forall|b: int| !#[trigger] holds_base(c.lines@, b) by {
                if holds_base(c.lines@, b) {
                    let j = choose|j: int| holds(c.lines@, j, b);
                    assert(present(c.lines@, j));
                }
            }
            assert(c.full_view() =~= backing.view());
        }
        c
    }

    /// Makes every later access charge the clock it is given.
    pub fn with_clock(self) -> (c: Self)
        ensures
            c.same_cache(&self),
            c.timing_spec() == self.timing_spec(),
            c.trace_spec() == self.trace_spec(),
            c.is_timed(),
    {
        SmtCacheMemory { timed: true, ..self }
    }

    pub fn with_timing(self, timing: CacheTiming) -> (c: Self)
        ensures
            c.same_cache(&self),
            c.is_timed() == self.is_timed(),
            c.trace_spec() == self.trace_spec(),
            c.timing_spec() == timing,
    {
        SmtCacheMemory { timing, ..self }
    }

    /// Records every later access and slice hand-over into `trace`.
    pub fn with_trace(self, trace: CacheTrace) -> (c: Self)
        ensures
            c.same_cache(&self),
            c.is_timed() == self.is_timed(),
            c.timing_spec() == self.timing_spec(),
            c.trace_spec() == Some(trace@),
    {
        SmtCacheMemory { trace: Some(trace), ..self }
    }

    /// Hands over the events recorded so far, emptying the trace.
    pub fn drain_trace(&mut self) -> (events: Vec<CacheAccessEvent>)
        ensures
            events@ == match old(self).trace_spec() {
                Some(e) => e,
                None => Seq::<CacheAccessEvent>::empty(),
            },
            final(self).trace_spec() == match old(self).trace_spec() {
                Some(e) => Some(Seq::<CacheAccessEvent>::empty()),
                None => None,
            },
            final(self).same_cache(old(self)),
            final(self).is_timed() == old(self).is_timed(),
            final(self).timing_spec() == old(self).timing_spec(),
    {
        match &mut self.trace {
            Some(t) => t.drain(),
            None => Vec::new(),
        }
    }

    /// The level below.
    pub fn backing_memory(&self) -> (m: &M)
        ensures
            *m == self.backing_spec(),
    {
        &self.backing
    }

    /// The class that slice `s` serves, if any.
    pub fn slice_owner(&self, s: usize) -> (o: Option<SecurityClass>)
        requires
            self.wf(),
            s < self.slice_total(),
        ensures
            o == self.owner_of(s as int),
    {
        self.owners[s]
    }

    /// A cache's accessible addresses depend only on its line size and on
    /// the level below.
    proof fn lemma_accessible_frame(s1: Self, s2: Self)
        requires
            s2.line_size == s1.line_size,
            forall|b: int| #[trigger] s2.backing.accessible(b) == s1.backing.accessible(b),
        ensures
            forall|b: int| #[trigger] s2.can_access(b) == s1.can_access(b),
    {
        assert forall|b: int| #[trigger] s2.can_access(b) == s1.can_access(b) by {
            if s1.can_access(b) {
                assert forall|k: int| 0 <= k < s2.line_len() implies #[trigger] s2.backing.accessible(s2.base_of(b) + k) by {
                    assert(s1.backing.accessible(s1.base_of(b) + k));
                }
            }
            if s2.can_access(b) {
                assert forall|k: int| 0 <= k < s1.line_len() implies #[trigger] s1.backing.accessible(s1.base_of(b) + k) by {
                    assert(s2.backing.accessible(s2.base_of(b) + k));
                }
            }
        }
    }
}

impl<M: MemoryDevice> SecurityClassControl for SmtCacheMemory<M> {
    open spec fn attributed_class(&self) -> SecurityClass {
        self.requester_class()
    }

    fn set_requester_class(&mut self, class: SecurityClass)
        ensures
            final(self).same_lines(old(self)),
            final(self).requester_class() == class,
    {
        self.active_domain = class;
    }

    fn set_requester_identity(&mut self, class: SecurityClass, pid: u32, domain: u32)
        ensures
            final(self).same_lines(old(self)),
            final(self).requester_class() == class,
            final(self).requester_pid() == pid,
            final(self).requester_domain() == domain,
    {
        self.active_domain = class;
        self.requester_pid = pid;
        self.requester_domain_id = domain;
    }
}

impl<M: MemoryDevice> SmtCacheMemory<M> {
    /// When the level below can reach every address below `n`, and `n` is a
    /// whole number of lines, so can this cache.
    pub proof fn lemma_accessible_below(&self, n: int)
        requires
            self.line_len() > 0,
            n >= 0,
            n % self.line_len() == 0,
            forall|b: int| 0 <= b < n ==> #[trigger] self.backing_spec().accessible(b),
        ensures
            forall|a: int| 0 <= a < n ==> #[trigger] self.accessible(a),
    {
        assert forall|a: int| 0 <= a < n implies #[trigger] self.accessible(a) by {
            let ls = self.line_len();
            lemma_base_of_props(a, ls);
            lemma_line_fits(a, ls, n);
            assert forall|k: int| 0 <= k < ls implies #[trigger] self.backing.accessible(self.base_of(a) + k) by {
                assert(0 <= self.base_of(a) + k < n);
                assert(self.backing_spec().accessible(self.base_of(a) + k));
            }
        }
    }
}

impl<M: MemoryDevice> MemoryDevice for SmtCacheMemory<M> {
    closed spec fn view(&self) -> Seq<u8> {
        self.full_view()
    }

    closed spec fn wf(&self) -> bool {
        self.state_wf()
    }

    closed spec fn accessible(&self, addr: int) -> bool {
        self.can_access(addr)
    }

    closed spec fn coherent(&self) -> bool {
        self.state_coherent()
    }

    open spec fn exclusive(&self, addr: int) -> bool {
        true
    }

    closed spec fn outgoing(&self) -> Seq<usize> {
        Seq::empty()
    }

    open spec fn fixed_costs(&self) -> Option<(u64, u64)> {
        None
    }

    closed spec fn holds_line(&self, addr: int) -> bool {
        ||| holds_base(self.lines@, self.base_of(addr))
        ||| self.backing.holds_line(addr)
    }

    proof fn lemma_accessible_in_range(&self, addr: int) {
        self.lemma_can_access(addr);
    }

    fn load_u8(&mut self, addr: usize, clock: &mut Clock) -> (r: u8)
        ensures
            old(self).pending_invalidations().len() == 0 && old(self).room_for_requester(addr as int) 
                && !old(self).held_for_requester(old(self).base_of(addr as int)) ==> (old(self).backing_spec().fixed_costs() matches Some(c)
                ==> final(clock)@ == tick_by(
                old(clock)@,
                old(self).line_len() * c.0 + (if old(self).is_timed() { old(self).timing_spec().load_miss as int } else { 0 }),
            )),
            final(self).held_for_requester(old(self).base_of(addr as int)),
            old(self).pending_invalidations().len() == 0 ==> forall|i: int|
                0 <= i < old(self).slot_total() && final(self).owner_of(old(self).slot_slice(i)) == old(self).owner_of(
                    old(self).slot_slice(i),
                ) && !is_owner(old(self).owner_of(old(self).slot_slice(i)), old(self).requester_class())
                    ==> #[trigger] final(self).line_slots()[i] == old(self).line_slots()[i],
            (exists|t: int| 0 <= t < old(self).slice_total() && is_owner(#[trigger] old(self).owner_of(t), old(self).requester_class()))
                ==> records_access(
                old(self).trace_spec(),
                final(self).trace_spec(),
                "smtcache",
                old(self).requester_class(),
                old(self).requester_pid(),
                old(self).requester_domain(),
                CacheAccessKind::Load,
                addr,
            ),
            old(self).pending_invalidations().len() == 0 && old(self).held_for_requester(old(self).base_of(addr as int))
                && old(self).trace_spec() is Some ==> last_access_hit(final(self).trace_spec()),
            old(self).pending_invalidations().len() == 0 && old(self).held_for_requester(old(self).base_of(addr as int))
                ==> final(clock)@ == saturating_tick(old(clock)@, if old(self).is_timed() { old(self).timing_spec().load_hit } else { 0 }),
            old(self).pending_invalidations().len() == 0 && (exists|t: int| 0 <= t < old(self).slice_total()
                && is_owner(#[trigger] old(self).owner_of(t), old(self).requester_class())) ==> {
                &&& forall|t: int| #[trigger] final(self).owner_of(t) == old(self).owner_of(t)
                &&& forall|i: int| 0 <= i < old(self).slot_total() && !is_owner(old(self).owner_of(old(self).slot_slice(i)), old(self).requester_class())
                    ==> #[trigger] final(self).line_slots()[i] == old(self).line_slots()[i]
            },
    {
        let r = self.load_u8_internal(addr, true, clock);
        proof {
            assert(self.fixed_costs() == old(self).fixed_costs());
            Self::lemma_accessible_frame(*old(self), *self);
        }
        r
    }

    fn store_u8(&mut self, addr: usize, n: u8, clock: &mut Clock)
        ensures
            old(self).pending_invalidations().len() == 0 && old(self).room_for_requester(addr as int) 
                && !old(self).held_for_requester(old(self).base_of(addr as int)) ==> (old(self).backing_spec().fixed_costs() matches Some(c)
                ==> final(clock)@ == tick_by(
                old(clock)@,
                old(self).line_len() * c.0 + (if old(self).is_timed() { old(self).timing_spec().store_miss as int } else { 0 }),
            )),
            final(self).held_for_requester(old(self).base_of(addr as int)),
            old(self).pending_invalidations().len() == 0 ==> forall|i: int|
                0 <= i < old(self).slot_total() && final(self).owner_of(old(self).slot_slice(i)) == old(self).owner_of(
                    old(self).slot_slice(i),
                ) && !is_owner(old(self).owner_of(old(self).slot_slice(i)), old(self).requester_class())
                    ==> #[trigger] final(self).line_slots()[i] == old(self).line_slots()[i],
            (exists|t: int| 0 <= t < old(self).slice_total() && is_owner(#[trigger] old(self).owner_of(t), old(self).requester_class()))
                ==> records_access(
                old(self).trace_spec(),
                final(self).trace_spec(),
                "smtcache",
                old(self).requester_class(),
                old(self).requester_pid(),
                old(self).requester_domain(),
                CacheAccessKind::Store,
                addr,
            ),
            old(self).pending_invalidations().len() == 0 && old(self).held_for_requester(old(self).base_of(addr as int))
                && old(self).trace_spec() is Some ==> last_access_hit(final(self).trace_spec()),
            old(self).pending_invalidations().len() == 0 && old(self).held_for_requester(old(self).base_of(addr as int))
                ==> final(clock)@ == saturating_tick(old(clock)@, if old(self).is_timed() { old(self).timing_spec().store_hit } else { 0 }),
            old(self).pending_invalidations().len() == 0 && (exists|t: int| 0 <= t < old(self).slice_total()
                && is_owner(#[trigger] old(self).owner_of(t), old(self).requester_class())) ==> {
                &&& forall|t: int| #[trigger] final(self).owner_of(t) == old(self).owner_of(t)
                &&& forall|i: int| 0 <= i < old(self).slot_total() && !is_owner(old(self).owner_of(old(self).slot_slice(i)), old(self).requester_class())
                    ==> #[trigger] final(self).line_slots()[i] == old(self).line_slots()[i]
            },
    {
        self.store_u8_internal(addr, n, true, clock);
        proof {
            assert(self.fixed_costs() == old(self).fixed_costs());
            Self::lemma_accessible_frame(*old(self), *self);
        }
    }

    fn load_u16(&mut self, addr: usize, clock: &mut Clock) -> (r: u16) {
        proof {
            self.lemma_can_access(addr + 1);
        }
        let second = self.line_base(addr + 1) != self.line_base(addr);
        let ghost s0 = *self;
        let lo = self.load_u8_internal(addr, true, clock);
        proof {
            Self::lemma_accessible_frame(s0, *self);
        }
        let ghost s1 = *self;
        let hi = self.load_u8_internal(addr + 1, second, clock);
        proof {
            Self::lemma_accessible_frame(s1, *self);
            Self::lemma_frame_trans(s0, s1, *self);
            Self::lemma_accessible_frame(s0, *self);
        }
        lo as u16 + hi as u16 * 256
    }

    fn store_u16(&mut self, addr: usize, n: u16, clock: &mut Clock) {
        proof {
            self.lemma_can_access(addr + 1);
        }
        let second = self.line_base(addr + 1) != self.line_base(addr);
        let ghost s0 = *self;
        self.store_u8_internal(addr, (n % 256) as u8, true, clock);
        proof {
            Self::lemma_accessible_frame(s0, *self);
        }
        let ghost s1 = *self;
        self.store_u8_internal(addr + 1, (n / 256) as u8, second, clock);
        proof {
            Self::lemma_frame_trans(s0, s1, *self);
            Self::lemma_accessible_frame(s0, *self);
        }
    }

    fn load_u32(&mut self, addr: usize, clock: &mut Clock) -> (r: u32) {
        proof {
            self.lemma_can_access(addr + 3);
        }
        let c1 = self.line_base(addr + 1) != self.line_base(addr);
        let c2 = self.line_base(addr + 2) != self.line_base(addr + 1);
        let c3 = self.line_base(addr + 3) != self.line_base(addr + 2);
        let ghost s0 = *self;
        let b0 = self.load_u8_internal(addr, true, clock);
        proof {
            Self::lemma_accessible_frame(s0, *self);
        }
        let ghost s1 = *self;
        let b1 = self.load_u8_internal(addr + 1, c1, clock);
        proof {
            Self::lemma_frame_trans(s0, s1, *self);
            Self::lemma_accessible_frame(s0, *self);
        }
        let ghost s2 = *self;
        let b2 = self.load_u8_internal(addr + 2, c2, clock);
        proof {
            Self::lemma_frame_trans(s0, s2, *self);
            Self::lemma_accessible_frame(s0, *self);
        }
        let ghost s3 = *self;
        let b3 = self.load_u8_internal(addr + 3, c3, clock);
        proof {
            Self::lemma_frame_trans(s0, s3, *self);
            Self::lemma_accessible_frame(s0, *self);
        }
        b0 as u32 + b1 as u32 * 256 + b2 as u32 * 65536 + b3 as u32 * 16777216
    }

    fn store_u32(&mut self, addr: usize, n: u32, clock: &mut Clock) {
        proof {
            self.lemma_can_access(addr + 3);
        }
        let c1 = self.line_base(addr + 1) != self.line_base(addr);
        let c2 = self.line_base(addr + 2) != self.line_base(addr + 1);
        let c3 = self.line_base(addr + 3) != self.line_base(addr + 2);
        let ghost s0 = *self;
        self.store_u8_internal(addr, (n % 256) as u8, true, clock);
        proof {
            Self::lemma_accessible_frame(s0, *self);
        }
        let ghost s1 = *self;
        self.store_u8_internal(addr + 1, ((n / 256) % 256) as u8, c1, clock);
        proof {
            Self::lemma_frame_trans(s0, s1, *self);
            Self::lemma_accessible_frame(s0, *self);
        }
        let ghost s2 = *self;
        self.store_u8_internal(addr + 2, ((n / 65536) % 256) as u8, c2, clock);
        proof {
            Self::lemma_frame_trans(s0, s2, *self);
            Self::lemma_accessible_frame(s0, *self);
        }
        let ghost s3 = *self;
        self.store_u8_internal(addr + 3, (n / 16777216) as u8, c3, clock);
        proof {
            Self::lemma_frame_trans(s0, s3, *self);
            Self::lemma_accessible_frame(s0, *self);
        }
    }

    fn peek_u8(&self, addr: usize) -> (r: u8) {
        proof {
            self.lemma_can_access(addr as int);
        }
        let ghost ls = self.line_len();
        let ghost n = self.mem_len();
        let base = self.line_base(addr);
        let offset = addr - base;
        match find_in(&self.lines, 0, self.lines.len(), base) {
            Some(i) => {
                match &self.lines[i] {
                    Some(line) => {
                        proof {
                            assert(present(self.lines@, i as int));
                            if self.state_coherent() {
                                self.lemma_unique();
                                assert(covers(self.lines@, ls, i as int, addr as int));
                                lemma_overlay_hit(self.lines@, ls, n, self.backing.view(), i as int, addr as int);
                            }
                        }
                        return line.data[offset];
                    },
                    None => {},
                }
            },
            None => {
                proof {
                    if self.state_coherent() {
                        self.lemma_unique();
                        lemma_holds_covers(self.lines@, ls, n, addr as int);
                        assert(!holds_base(self.lines@, base as int));
                    }
                }
            },
        }
        proof {
            assert(self.backing.accessible(base + (addr - base)));
        }
        self.backing.peek_u8(addr)
    }

    fn store_backmost_u8(&mut self, addr: usize, n: u8, clock: &mut Clock) {
        proof {
            self.lemma_can_access(addr as int);
            lemma_base_of_props(addr as int, self.line_len());
            assert(self.backing.accessible(self.base_of(addr as int) + (addr - self.base_of(addr as int))));
        }
        let ghost s0 = *self;
        self.backing.store_backmost_u8(addr, n, clock);
        proof {
            self.lemma_lines_backing(s0);
            Self::lemma_accessible_frame(s0, *self);
            let ls = s0.line_len();
            let m = s0.mem_len();
            if s0.coherent() && !s0.holds_line(addr as int) {
                s0.lemma_unique();
                lemma_holds_covers(s0.lines@, ls, m, addr as int);
                assert(s0.backing.exclusive(addr as int));
                lemma_clean_update_uncovered(s0.lines@, ls, m, s0.backing.view(), addr as int, n);
                lemma_overlay_update_uncovered(s0.lines@, ls, m, s0.backing.view(), addr as int, n);
            }
            if s0.coherent() {
                assert forall|a: int| self.backing.accessible(a) implies #[trigger] self.backing.exclusive(a) by {
                    assert(s0.backing.accessible(a));
                }
            }
        }
    }

    fn take_invalidations(&mut self) -> (v: Vec<usize>) {
        Vec::new()
    }
}

impl<M: MemoryDevice> InvalidationListener for SmtCacheMemory<M> {
    /// Drops the copies of the line held in every slice, writing dirty
    /// ones back.
    fn invalidate_line(&mut self, base_addr: usize, clock: &mut Clock)
        ensures
            final(self).line_slots() == without_lines(old(self).line_slots(), set![base_addr as int]),
    {
        self.invalidate_all_copies(base_addr, clock);
        proof {
            Self::lemma_accessible_frame(*old(self), *self);
        }
    }
}

} // verus!