use vstd::prelude::*;

use crate::device::Clock;
use crate::device::clock::{lemma_tick_by_twice, saturating_tick, tick_by};
use crate::device::memory::lines::{lemma_base_of_props, lemma_line_fits, lemma_slot_index};
use crate::device::memory::table::{
    CachedLine, at, backing_frame, is_victim, backing_sound, clean_match, covers, find_in, holds, holds_base,
    lemma_clean_put, lemma_clean_update_uncovered, lemma_holds_covers, lemma_overlay_hit,
    lemma_overlay_put, lemma_overlay_remove, lemma_overlay_update_uncovered, lemma_overlay_write,
    lemma_same_content, line_accessible, overlay, present, put_slot, read_line, table_wf, take_slot,
    unique, write_line,
};
use crate::device::memory::{CacheTiming, MemoryDevice};
use crate::device::newcache_memory::lemma_unheld_line;

use vstd::arithmetic::div_mod::{lemma_fundamental_div_mod, lemma_fundamental_div_mod_converse};

verus! {

/// Security class of the program on whose behalf a cache is accessed.
#[derive(Clone, Copy, Debug, PartialEq, Eq)]
pub enum SecurityClass {
    High,
    Low,
}

/// A cache that treats requesters of different security classes, processes
/// or domains apart.
pub trait SecurityClassControl: Sized {
    /// The class that the accesses that follow are attributed to.
    spec fn attributed_class(&self) -> SecurityClass;

    /// Attributes the accesses that follow to a requester of class `class`.
    fn set_requester_class(&mut self, class: SecurityClass)
        ensures
            final(self).attributed_class() == class,
    ;

    /// Attributes the accesses that follow to process `pid` of domain
    /// `domain`, whose class is `class`.
    fn set_requester_identity(&mut self, class: SecurityClass, _pid: u32, _domain: u32)
        ensures
            final(self).attributed_class() == class,
    {
        self.set_requester_class(class);
    }
}


/// How many parts a whole miss-rate threshold is divided into: thresholds
/// are counted in millionths.
pub const THRESHOLD_SCALE: u64 = 1_000_000;

/// When a secure dynamic cache partition moves a way between the classes.
///
/// After every `epoch_public_accesses` accesses of the low class, the low
/// (public) partition gains a way when the low class's miss rate over the
/// epoch exceeds `increase_threshold`, and gives one back when it is below
/// `decrease_threshold`; both thresholds are in millionths. The high class
/// keeps at least `min_high_ways` ways and the low class at least
/// `min_low_ways`, and never fewer than one.
#[derive(Clone, Copy, Debug, PartialEq, Eq)]
pub struct SecDcpPolicy {
    pub epoch_public_accesses: u64,
    pub increase_threshold: u64,
    pub decrease_threshold: u64,
    pub min_high_ways: usize,
    pub min_low_ways: usize,
}

impl Default for SecDcpPolicy {
    /// Epochs of 256 low accesses, growing above a 60% miss rate and
    /// shrinking below 10%, with at least one way for each class.
    fn default() -> (p: Self)
        ensures
            p.epoch_public_accesses == 256,
            p.increase_threshold == 600_000,
            p.decrease_threshold == 100_000,
            p.min_high_ways == 1,
            p.min_low_ways == 1,
    {
        SecDcpPolicy {
            epoch_public_accesses: 256,
            increase_threshold: 600_000,
            decrease_threshold: 100_000,
            min_high_ways: 1,
            min_low_ways: 1,
        }
    }
}

/// The fewest ways the low partition holds under `p`.
pub open spec fn min_public(p: SecDcpPolicy) -> int {
    if p.min_low_ways >= 1 { p.min_low_ways as int } else { 1 }
}

/// The most ways the low partition holds under `p` in a set of `ways` ways.
pub open spec fn max_public(p: SecDcpPolicy, ways: int) -> int {
    let spare = if ways >= p.min_high_ways { ways - p.min_high_ways } else { 0 };
    if spare >= min_public(p) { spare } else { min_public(p) }
}

/// Whether `p` leaves both classes at least one way of a set of `ways`.
pub open spec fn policy_fits(p: SecDcpPolicy, ways: int) -> bool {
    &&& p.min_high_ways >= 1
    &&& min_public(p) < ways
}

/// Whether a miss rate of `misses` in `accesses` exceeds `threshold`
/// millionths; no access counts as a rate of zero.
pub open spec fn rate_above(misses: u64, accesses: u64, threshold: u64) -> bool {
    misses * THRESHOLD_SCALE > threshold * accesses
}

/// Whether a miss rate of `misses` in `accesses` lies below `threshold`
/// millionths; no access counts as a rate of zero.
pub open spec fn rate_below(misses: u64, accesses: u64, threshold: u64) -> bool {
    if accesses == 0 { 0 < threshold } else { misses * THRESHOLD_SCALE < threshold * accesses }
}

/// The size of the low partition after an epoch that ended with `misses`
/// misses in `accesses` low accesses, from `current` ways.
pub open spec fn next_public_ways(p: SecDcpPolicy, ways: int, current: int, misses: u64, accesses: u64) -> int {
    if rate_above(misses, accesses, p.increase_threshold) && current < max_public(p, ways) {
        current + 1
    } else if rate_below(misses, accesses, p.decrease_threshold) && current > min_public(p) {
        current - 1
    } else {
        current
    }
}

/// A first-level cache whose ways are split between the two security
/// classes: the low class uses the first `public_ways` ways of every set,
/// the high class the others. A class looks up and fills lines only in its
/// own ways, and the split moves with the low class's miss rate.
pub struct SecDcpMemory<M: MemoryDevice> {
    line_size: usize,
    num_sets: usize,
    associativity: usize,
    lines: Vec<Option<CachedLine>>,
    use_counter: usize,
    backing: M,
    timed: bool,
    timing: CacheTiming,
    policy: SecDcpPolicy,
    requester: SecurityClass,
    public_ways: usize,
    public_accesses: u64,
    public_misses: u64,
}

/// Whether way `w` belongs to class `c` when the low class has `public`
/// ways out of `ways`.
pub open spec fn way_of_class(c: SecurityClass, w: int, public: int, ways: int) -> bool {
    match c {
        SecurityClass::Low => 0 <= w < public,
        SecurityClass::High => public <= w < ways,
    }
}

/// Slot `s * ways + w` lies in set `s` at way `w`.
proof fn lemma_slot(s: int, w: int, ways: int, sets: int)
    requires
        0 <= s < sets,
        0 <= w < ways,
    ensures
        0 <= s * ways + w < sets * ways,
        (s * ways + w) / ways == s,
        (s * ways + w) % ways == w,
{
    lemma_slot_index(s, w, ways, sets);
    lemma_fundamental_div_mod_converse(s * ways + w, ways, s, w);
}

/// A slot of set `s` lies among that set's ways.
proof fn lemma_slot_range(i: int, s: int, ways: int)
    requires
        0 <= i,
        ways > 0,
        i / ways == s,
    ensures
        s * ways <= i < s * ways + ways,
        i == s * ways + i % ways,
{
    lemma_fundamental_div_mod(i, ways);
    assert(ways * s == s * ways) by (nonlinear_arith);
}

impl<M: MemoryDevice> SecDcpMemory<M> {
    pub closed spec fn line_len(&self) -> int {
        self.line_size as int
    }

    pub closed spec fn ways(&self) -> int {
        self.associativity as int
    }

    pub closed spec fn is_timed(&self) -> bool {
        self.timed
    }

    pub closed spec fn timing_spec(&self) -> CacheTiming {
        self.timing
    }

    pub closed spec fn policy_spec(&self) -> SecDcpPolicy {
        self.policy
    }

    pub closed spec fn backing_spec(&self) -> M {
        self.backing
    }

    /// The class the current requester belongs to.
    pub closed spec fn requester_class(&self) -> SecurityClass {
        self.requester
    }

    /// How many ways of every set the low class holds.
    pub closed spec fn public_way_count(&self) -> int {
        self.public_ways as int
    }

    /// Whether the ways of the current requester's class hold the line
    /// starting at `b`.
    pub closed spec fn held_for_requester(&self, b: int) -> bool {
        exists|j: int| holds(self.lines@, j, b)
            && #[trigger] way_of_class(self.requester, self.slot_way(j), self.public_ways as int, self.associativity as int)
    }

    /// Whether the ways of the current requester's class in the set of the
    /// line of `a` include an empty one, so that a miss there evicts nothing.
    pub closed spec fn room_for_requester(&self, a: int) -> bool {
        exists|j: int|
            0 <= j < self.lines@.len() && #[trigger] self.class_slot(self.requester, j, self.set_of(self.base_of(a)))
                && !present(self.lines@, j)
    }

    /// Whether the next access ends the epoch and may move the split.
    pub closed spec fn ends_epoch(&self) -> bool {
        self.public_accesses + (if self.requester is Low { 1int } else { 0int }) >= self.policy.epoch_public_accesses
    }

    /// The owner of the line in way `w` of set `s`, if one is there.
    pub closed spec fn owner_at(&self, s: int, w: int) -> Option<SecurityClass> {
        if present(self.lines@, s * self.associativity + w) {
            Some(at(self.lines@, s * self.associativity + w).owner)
        } else {
            None
        }
    }

    /// The line in way `w` of set `s`, as its first address, if one is there.
    pub closed spec fn base_at(&self, s: int, w: int) -> Option<usize> {
        if present(self.lines@, s * self.associativity + w) {
            Some(at(self.lines@, s * self.associativity + w).base_addr)
        } else {
            None
        }
    }

    pub open spec fn base_of(&self, a: int) -> int {
        (a / self.line_len()) * self.line_len()
    }

    spec fn slot_set(&self, i: int) -> int {
        i / (self.associativity as int)
    }

    spec fn slot_way(&self, i: int) -> int {
        i % (self.associativity as int)
    }

    /// Whether slot `i` lies in set `set`, among the ways of class `c`.
    spec fn class_slot(&self, c: SecurityClass, i: int, set: int) -> bool {
        &&& self.slot_set(i) == set
        &&& way_of_class(c, self.slot_way(i), self.public_ways as int, self.associativity as int)
    }

    spec fn set_of(&self, b: int) -> int {
        (b / self.line_len()) % (self.num_sets as int)
    }

    spec fn mem_len(&self) -> int {
        self.backing.view().len() as int
    }

    /// Whether the epoch counters are in range: an epoch ends as soon as
    /// its last access is counted.
    spec fn epoch_wf(&self) -> bool {
        &&& self.public_misses <= self.public_accesses
        &&& (self.public_accesses < self.policy.epoch_public_accesses || self.public_accesses == 0)
    }

    spec fn shape_wf(&self) -> bool {
        &&& self.line_size > 0
        &&& self.num_sets > 0
        &&& self.associativity > 0
        &&& self.num_sets * self.associativity <= usize::MAX
        &&& self.lines@.len() == self.num_sets * self.associativity
        &&& policy_fits(self.policy, self.associativity as int)
        &&& min_public(self.policy) <= self.public_ways <= max_public(self.policy, self.associativity as int)
    }

    spec fn lines_wf(&self) -> bool {
        forall|i: int|
            #[trigger] present(self.lines@, i) ==> {
                &&& at(self.lines@, i).data@.len() == self.line_len()
                &&& (at(self.lines@, i).base_addr as int) % self.line_len() == 0
                &&& at(self.lines@, i).base_addr + self.line_len() <= self.mem_len()
                &&& line_accessible(self.backing, at(self.lines@, i).base_addr as int, self.line_len())
                &&& self.set_of(at(self.lines@, i).base_addr as int) == self.slot_set(i)
            }
    }

    spec fn state_wf(&self) -> bool {
        &&& self.shape_wf()
        &&& self.lines_wf()
        &&& self.epoch_wf()
        &&& self.backing.wf()
    }

    /// Every resident line belongs to the current requester's class and
    /// sits in that class's ways.
    spec fn single_class(&self) -> bool {
        forall|i: int|
            #[trigger] present(self.lines@, i) ==> {
                &&& at(self.lines@, i).owner == self.requester
                &&& way_of_class(self.requester, self.slot_way(i), self.public_ways as int, self.associativity as int)
            }
    }

    spec fn state_coherent(&self) -> bool {
        &&& backing_sound(self.backing)
        &&& self.single_class()
        &&& unique(self.lines@)
        &&& clean_match(self.lines@, self.line_len(), self.backing.view())
    }

    spec fn full_view(&self) -> Seq<u8> {
        overlay(self.lines@, self.line_len(), self.backing.view())
    }

    spec fn same_frame(&self, other: &Self) -> bool {
        &&& self.line_size == other.line_size
        &&& self.num_sets == other.num_sets
        &&& self.associativity == other.associativity
        &&& self.timed == other.timed
        &&& self.timing == other.timing
        &&& self.policy == other.policy
        &&& self.requester == other.requester
        &&& backing_frame(self.backing, other.backing)
    }
}

impl<M: MemoryDevice> SecDcpMemory<M> {
    proof fn lemma_frame_trans(s1: Self, s2: Self, s3: Self)
        requires
            s2.same_frame(&s1),
            s3.same_frame(&s2),
        ensures
            s3.same_frame(&s1),
    {
        assert forall|b: int| #[trigger] s3.backing.accessible(b) == s1.backing.accessible(b) by {
            assert(s2.backing.accessible(b) == s1.backing.accessible(b));
        }
        assert forall|b: int| s1.backing.exclusive(b) implies #[trigger] s3.backing.exclusive(b) by {
            assert(s2.backing.exclusive(b));
        }
    }

    /// Lines stay well formed over a backing whose accessible addresses and
    /// size are kept.
    proof fn lemma_lines_backing(&self, other: Self)
        requires
            other.lines_wf(),
            self.lines@ == other.lines@,
            self.line_size == other.line_size,
            self.num_sets == other.num_sets,
            self.associativity == other.associativity,
            forall|b: int| #[trigger] self.backing.accessible(b) == other.backing.accessible(b),
            self.backing.view().len() == other.backing.view().len(),
        ensures
            self.lines_wf(),
    {
        assert forall|i: int| #[trigger] present(self.lines@, i) implies line_accessible(
            self.backing,
            at(self.lines@, i).base_addr as int,
            self.line_len(),
        ) by {
            assert(line_accessible(other.backing, at(other.lines@, i).base_addr as int, other.line_len()));
            assert forall|k: int| 0 <= k < self.line_len() implies #[trigger] self.backing.accessible(at(self.lines@, i).base_addr + k) by {
                assert(other.backing.accessible(at(other.lines@, i).base_addr + k));
            }
        }
    }

    fn line_base(&self, addr: usize) -> (b: usize)
        requires
            self.shape_wf(),
        ensures
            b == self.base_of(addr as int),
            b <= addr,
    {
        proof {
            lemma_base_of_props(addr as int, self.line_len());
        }
        (addr / self.line_size) * self.line_size
    }

    fn set_index(&self, addr: usize) -> (s: usize)
        requires
            self.shape_wf(),
        ensures
            s == self.set_of(self.base_of(addr as int)),
            s < self.num_sets,
    {
        proof {
            lemma_base_of_props(addr as int, self.line_len());
        }
        (addr / self.line_size) % self.num_sets
    }

    fn next_use_counter(&mut self) -> (v: usize)
        ensures
            v == old(self).use_counter,
            *final(self) == (Self { use_counter: final(self).use_counter, ..*old(self) }),
    {
        let v = self.use_counter;
        self.use_counter = self.use_counter.saturating_add(1);
        v
    }

    fn charge(&self, n: u64, clock: &mut Clock)
        ensures
            final(clock)@ == saturating_tick(old(clock)@, if self.timed { n } else { 0 }),
    {
        if self.timed {
            clock.advance(n);
        }
    }

    /// Empties slot `idx`, writing the line back when dirty.
    fn remove_slot(&mut self, idx: usize, clock: &mut Clock)
        requires
            old(self).state_wf(),
            idx < old(self).lines@.len(),
            present(old(self).lines@, idx as int),
        ensures
            final(self).state_wf(),
            final(self).same_frame(old(self)),
            final(self).public_ways == old(self).public_ways,
            final(self).public_accesses == old(self).public_accesses,
            final(self).public_misses == old(self).public_misses,
            final(self).use_counter == old(self).use_counter,
            final(self).lines@ == old(self).lines@.update(idx as int, None),
            final(clock)@ >= old(clock)@,
            old(self).state_coherent() ==> {
                &&& final(self).state_coherent()
                &&& final(self).full_view() == old(self).full_view()
            },
    {
        let ghost s0 = *self;
        let slot = take_slot(&mut self.lines, idx);
        match slot {
            Some(line) => {
                proof {
                    assert(present(s0.lines@, idx as int));
                    assert(line_accessible(s0.backing, line.base_addr as int, s0.line_len()));
                }
                if line.dirty {
                    let mut dropped: Vec<usize> = Vec::new();
                    write_line(&mut self.backing, &mut dropped, line.base_addr, &line.data, clock);
                    self.charge(self.timing.write_back, clock);
                }
                proof {
                    let c0 = s0.lines@;
                    let c1 = self.lines@;
                    let ls = s0.line_len();
                    assert forall|i: int| #[trigger] present(c1, i) implies {
                        &&& at(c1, i).data@.len() == ls
                        &&& (at(c1, i).base_addr as int) % ls == 0
                        &&& at(c1, i).base_addr + ls <= self.mem_len()
                        &&& line_accessible(self.backing, at(c1, i).base_addr as int, ls)
                        &&& self.set_of(at(c1, i).base_addr as int) == self.slot_set(i)
                    } by {
                        assert(present(c0, i));
                        assert(line_accessible(s0.backing, at(c0, i).base_addr as int, ls));
                        assert forall|k: int| 0 <= k < ls implies #[trigger] self.backing.accessible(at(c1, i).base_addr + k) by {
                            assert(s0.backing.accessible(at(c0, i).base_addr + k));
                        }
                    }
                    if s0.state_coherent() {
                        lemma_overlay_remove(c0, ls, s0.mem_len(), s0.backing.view(), idx as int);
                        assert forall|i: int| #[trigger] present(c1, i) implies {
                            &&& at(c1, i).owner == self.requester
                            &&& way_of_class(self.requester, self.slot_way(i), self.public_ways as int, self.associativity as int)
                        } by {
                            assert(present(c0, i));
                        }
                        assert forall|i: int, j: int|
                            #![trigger present(c1, i), present(c1, j)]
                            present(c1, i) && present(c1, j) && at(c1, i).base_addr == at(c1, j).base_addr implies i == j by {
                            assert(present(c0, i) && present(c0, j));
                        }
                    }
                }
            },
            None => {
                proof {
                    assert(false);
                }
            },
        }
    }

    /// Empties way `way` of every set of the lines the low class owns,
    /// writing dirty ones back.
    fn flush_low_way(&mut self, way: usize, clock: &mut Clock)
        requires
            old(self).state_wf(),
            way < old(self).associativity,
        ensures
            final(self).state_wf(),
            final(self).same_frame(old(self)),
            final(self).public_ways == old(self).public_ways,
            final(self).public_accesses == old(self).public_accesses,
            final(self).public_misses == old(self).public_misses,
            final(self).use_counter == old(self).use_counter,
            forall|i: int| #[trigger] present(final(self).lines@, i) ==> present(old(self).lines@, i)
                && at(final(self).lines@, i) == at(old(self).lines@, i),
            forall|i: int| #[trigger] present(old(self).lines@, i) ==> (present(final(self).lines@, i)
                <==> !(old(self).slot_way(i) == way && at(old(self).lines@, i).owner == SecurityClass::Low)),
            final(clock)@ >= old(clock)@,
            old(self).state_coherent() ==> {
                &&& final(self).state_coherent()
                &&& final(self).full_view() == old(self).full_view()
            },
    {
        let mut set: usize = 0;
        while set < self.num_sets
            invariant
                self.state_wf(),
                self.same_frame(old(self)),
                self.public_ways == old(self).public_ways,
                self.public_accesses == old(self).public_accesses,
                self.public_misses == old(self).public_misses,
                self.use_counter == old(self).use_counter,
                way < self.associativity,
                set <= self.num_sets,
                forall|i: int| #[trigger] present(self.lines@, i) ==> present(old(self).lines@, i)
                    && at(self.lines@, i) == at(old(self).lines@, i),
                forall|i: int| #[trigger] present(old(self).lines@, i) ==> (present(self.lines@, i)
                    <==> !(self.slot_set(i) < set && old(self).slot_way(i) == way
                        && at(old(self).lines@, i).owner == SecurityClass::Low)),
                clock@ >= old(clock)@,
                old(self).state_coherent() ==> {
                    &&& self.state_coherent()
                    &&& self.full_view() == old(self).full_view()
                },
            decreases self.num_sets - set,
        {
            proof {
                lemma_slot(set as int, way as int, self.associativity as int, self.num_sets as int);
            }
            let idx = set * self.associativity + way;
            let low = match &self.lines[idx] {
                Some(l) => match l.owner {
                    SecurityClass::Low => true,
                    SecurityClass::High => false,
                },
                None => false,
            };
            let ghost s0 = *self;
            if low {
                self.remove_slot(idx, clock);
                proof {
                    Self::lemma_frame_trans(*old(self), s0, *self);
                }
            }
            proof {
                assert forall|i: int| #[trigger] present(self.lines@, i) implies present(old(self).lines@, i)
                    && at(self.lines@, i) == at(old(self).lines@, i) by {
                    assert(present(s0.lines@, i));
                }
                assert forall|i: int| #[trigger] present(old(self).lines@, i) implies (present(self.lines@, i)
                    <==> !(self.slot_set(i) < set + 1 && old(self).slot_way(i) == way
                        && at(old(self).lines@, i).owner == SecurityClass::Low)) by {
                    if i != idx {
                        if self.slot_set(i) == set && old(self).slot_way(i) == way {
                            lemma_slot_range(i, set as int, self.associativity as int);
                        }
                    } else {
                        assert(present(s0.lines@, i) == present(old(self).lines@, i));
                    }
                }
            }
            set = set + 1;
        }
        proof {
            assert forall|i: int| #[trigger] present(old(self).lines@, i) implies self.slot_set(i) < set by {
                assert(i < self.num_sets * self.associativity);
                assert(i / (self.associativity as int) < self.num_sets) by (nonlinear_arith)
                    requires
                        0 <= i < self.num_sets * self.associativity,
                        self.associativity > 0,
                ;
            }
        }
    }
}

impl<M: MemoryDevice> SecDcpMemory<M> {
    /// Counts an access of the low class, and a miss when `miss`.
    fn record_public_access(&mut self, miss: bool)
        requires
            old(self).epoch_wf(),
        ensures
            *final(self) == (Self {
                public_accesses: (old(self).public_accesses + 1) as u64,
                public_misses: (old(self).public_misses + if miss { 1int } else { 0int }) as u64,
                ..*old(self)
            }),
    {
        self.public_accesses = self.public_accesses + 1;
        if miss {
            self.public_misses = self.public_misses + 1;
        }
    }

    /// Ends the epoch once the low class has made enough accesses: moves a
    /// way between the classes as its miss rate says, flushes the lines of
    /// the low class out of a way it gives back, and starts a new epoch.
    fn maybe_repartition(&mut self, clock: &mut Clock)
        requires
            old(self).shape_wf(),
            old(self).lines_wf(),
            old(self).backing.wf(),
            old(self).public_misses <= old(self).public_accesses,
            old(self).public_accesses <= old(self).policy.epoch_public_accesses || old(self).public_accesses == 1,
        ensures
            final(self).state_wf(),
            final(self).same_frame(old(self)),
            final(self).use_counter == old(self).use_counter,
            forall|i: int| #[trigger] present(final(self).lines@, i) ==> present(old(self).lines@, i)
                && at(final(self).lines@, i) == at(old(self).lines@, i),
            old(self).public_accesses < old(self).policy.epoch_public_accesses ==> *final(self) == *old(self)
                && final(clock)@ == old(clock)@,
            old(self).public_accesses >= old(self).policy.epoch_public_accesses ==> {
                &&& final(self).public_ways == next_public_ways(
                    old(self).policy,
                    old(self).associativity as int,
                    old(self).public_ways as int,
                    old(self).public_misses,
                    old(self).public_accesses,
                )
                &&& final(self).public_accesses == 0
                &&& final(self).public_misses == 0
            },
            final(clock)@ >= old(clock)@,
            old(self).state_coherent() && (old(self).requester is Low || old(self).public_accesses == 0
                || old(self).public_accesses < old(self).policy.epoch_public_accesses) ==> {
                &&& final(self).state_coherent()
                &&& final(self).full_view() == old(self).full_view()
            },
    {
        if self.public_accesses < self.policy.epoch_public_accesses {
            return;
        }
        let current = self.public_ways;
        let min_p: usize = if self.policy.min_low_ways >= 1 {
            self.policy.min_low_ways
        } else {
            1
        };
        let spare: usize = if self.associativity >= self.policy.min_high_ways {
            self.associativity - self.policy.min_high_ways
        } else {
            0
        };
        let max_p: usize = if spare >= min_p {
            spare
        } else {
            min_p
        };
        let accesses = self.public_accesses as u128;
        let misses = self.public_misses as u128;
        proof {
            let inc = self.policy.increase_threshold as u128;
            let dec = self.policy.decrease_threshold as u128;
            assert(misses * (THRESHOLD_SCALE as u128) <= u128::MAX) by (nonlinear_arith)
                requires
                    misses <= u64::MAX,
            ;
            assert(inc * accesses <= u128::MAX) by (nonlinear_arith)
                requires
                    inc <= u64::MAX,
                    accesses <= u64::MAX,
            ;
            assert(dec * accesses <= u128::MAX) by (nonlinear_arith)
                requires
                    dec <= u64::MAX,
                    accesses <= u64::MAX,
            ;
        }
        let above = misses * (THRESHOLD_SCALE as u128) > (self.policy.increase_threshold as u128) * accesses;
        let below = if accesses == 0 {
            0 < self.policy.decrease_threshold
        } else {
            misses * (THRESHOLD_SCALE as u128) < (self.policy.decrease_threshold as u128) * accesses
        };
        let new_ways: usize = if above && current < max_p {
            current + 1
        } else if below && current > min_p {
            current - 1
        } else {
            current
        };
        proof {
            assert(above == rate_above(self.public_misses, self.public_accesses, self.policy.increase_threshold));
            assert(below == rate_below(self.public_misses, self.public_accesses, self.policy.decrease_threshold));
            if self.requester is High && self.public_accesses == 0 {
                assert(!above);
            }
        }
        let ghost s0 = *self;
        self.public_accesses = 0;
        self.public_misses = 0;
        let mut w = new_ways;
        while w < current
            invariant
                self.state_wf(),
                self.same_frame(&s0),
                self.public_ways == current,
                self.public_accesses == 0,
                self.public_misses == 0,
                self.use_counter == s0.use_counter,
                current == s0.public_ways,
                current <= new_ways + 1,
                new_ways <= w <= current || (w == new_ways && current <= new_ways),
                current < s0.associativity,
                forall|i: int| #[trigger] present(self.lines@, i) ==> present(s0.lines@, i)
                    && at(self.lines@, i) == at(s0.lines@, i),
                forall|i: int| #[trigger] present(self.lines@, i) && at(self.lines@, i).owner == SecurityClass::Low
                    ==> !(new_ways <= self.slot_way(i) < w),
                clock@ >= old(clock)@,
                s0.state_coherent() ==> {
                    &&& self.state_coherent()
                    &&& self.full_view() == s0.full_view()
                },
            decreases current - w,
        {
            let ghost s1 = *self;
            self.flush_low_way(w, clock);
            proof {
                Self::lemma_frame_trans(s0, s1, *self);
                assert forall|i: int| #[trigger] present(self.lines@, i) && at(self.lines@, i).owner == SecurityClass::Low
                    implies !(new_ways <= self.slot_way(i) < w + 1) by {
                    assert(present(s1.lines@, i));
                }
                assert forall|i: int| #[trigger] present(self.lines@, i) implies present(s0.lines@, i)
                    && at(self.lines@, i) == at(s0.lines@, i) by {
                    assert(present(s1.lines@, i));
                }
            }
            w = w + 1;
        }
        let ghost s2 = *self;
        self.public_ways = new_ways;
        proof {
            assert(self.lines_wf());
            if s0.state_coherent() && (s0.requester is Low || s0.public_accesses == 0
                || s0.public_accesses < s0.policy.epoch_public_accesses) {
                assert forall|i: int| #[trigger] present(self.lines@, i) implies {
                    &&& at(self.lines@, i).owner == self.requester
                    &&& way_of_class(self.requester, self.slot_way(i), self.public_ways as int, self.associativity as int)
                } by {
                    assert(present(s0.lines@, i));
                }
            }
        }
    }
}

impl<M: MemoryDevice> SecDcpMemory<M> {
    /// With no line held twice, the table is well formed over the memory below.
    proof fn lemma_table(&self)
        requires
            self.state_wf(),
            unique(self.lines@),
        ensures
            table_wf(self.lines@, self.line_len(), self.mem_len()),
    {
    }

    /// Whether the line of `a` lies in memory the level below can access.
    pub closed spec fn can_access(&self, a: int) -> bool {
        &&& 0 <= a
        &&& line_accessible(self.backing, self.base_of(a), self.line_len())
    }

    proof fn lemma_can_access(&self, a: int)
        requires
            self.state_wf(),
            self.can_access(a),
        ensures
            0 <= a < self.mem_len(),
            self.base_of(a) >= 0,
            self.base_of(a) % self.line_len() == 0,
            self.base_of(a) <= a < self.base_of(a) + self.line_len(),
            self.base_of(a) + self.line_len() <= self.mem_len(),
            self.mem_len() <= usize::MAX,
    {
        let ls = self.line_len();
        lemma_base_of_props(a, ls);
        let b = self.base_of(a);
        assert(self.backing.accessible(b + (a - b)));
        assert(self.backing.accessible(b + (ls - 1)));
        self.backing.lemma_accessible_in_range(b + (ls - 1));
        self.backing.lemma_accessible_in_range(a);
    }

    /// The slots of set `set` that class `c` uses: `lo..hi`.
    fn class_slots(&self, c: SecurityClass, set: usize) -> (r: (usize, usize))
        requires
            self.shape_wf(),
            set < self.num_sets,
        ensures
            r.0 < r.1,
            r.0 == set * self.associativity + match c {
                SecurityClass::Low => 0,
                SecurityClass::High => self.public_ways as int,
            },
            r.1 == set * self.associativity + match c {
                SecurityClass::Low => self.public_ways as int,
                SecurityClass::High => self.associativity as int,
            },
            r.1 <= self.lines@.len(),
            forall|i: int| r.0 <= i < r.1 ==> #[trigger] self.class_slot(c, i, set as int),
            forall|i: int| 0 <= i < self.lines@.len() && #[trigger] self.class_slot(c, i, set as int) ==> r.0 <= i < r.1,
    {
        proof {
            lemma_slot(set as int, 0, self.associativity as int, self.num_sets as int);
            lemma_slot(set as int, self.associativity - 1, self.associativity as int, self.num_sets as int);
        }
        let first = set * self.associativity;
        let r = match c {
            SecurityClass::Low => (first, first + self.public_ways),
            SecurityClass::High => (first + self.public_ways, first + self.associativity),
        };
        proof {
            assert forall|i: int| r.0 <= i < r.1 implies #[trigger] self.class_slot(c, i, set as int) by {
                lemma_slot(set as int, i - first, self.associativity as int, self.num_sets as int);
                assert(set * self.associativity + (i - first) == i);
                assert(self.slot_set(i) == set);
                assert(self.slot_way(i) == i - first);
            }
            assert forall|i: int| 0 <= i < self.lines@.len() && #[trigger] self.class_slot(c, i, set as int) implies r.0 <= i < r.1 by {
                lemma_slot_range(i, set as int, self.associativity as int);
            }
        }
        r
    }

    /// The way of `lo..hi` to fill: the first empty one, else the one used
    /// least recently.
    fn find_victim(&self, lo: usize, hi: usize) -> (w: usize)
        requires
            lo < hi <= self.lines@.len(),
        ensures
            lo <= w < hi,
            is_victim(self.lines@, lo as int, hi as int, w as int),
    {
        let mut lru_way = lo;
        let mut lru_used = usize::MAX;
        let mut way = lo;
        while way < hi
            invariant
                lo <= way <= hi,
                hi <= self.lines@.len(),
                lo <= lru_way < hi,
                lru_way < way || (lru_way == lo && lru_used == usize::MAX),
                forall|j: int| lo <= j < way ==> #[trigger] present(self.lines@, j),
                lru_way < way ==> present(self.lines@, lru_way as int)
                    && at(self.lines@, lru_way as int).last_used == lru_used,
                forall|j: int| lo <= j < way ==> lru_used <= #[trigger] at(self.lines@, j).last_used,
                forall|j: int| lo <= j < lru_way ==> lru_used < #[trigger] at(self.lines@, j).last_used,
            decreases hi - way,
        {
            match &self.lines[way] {
                None => {
                    return way;
                },
                Some(line) => {
                    if line.last_used < lru_used {
                        lru_used = line.last_used;
                        lru_way = way;
                    }
                },
            }
            way = way + 1;
        }
        lru_way
    }

    /// With every line in the requester's ways, a line that those ways of
    /// its set do not hold is not resident at all.
    proof fn lemma_not_held(&self, b: int, set: int, lo: int, hi: int)
        requires
            self.state_wf(),
            self.single_class(),
            set == self.set_of(b),
            forall|i: int| 0 <= i < self.lines@.len() && #[trigger] self.class_slot(self.requester, i, set)
                ==> lo <= i < hi,
            forall|j: int| lo <= j < hi ==> !#[trigger] holds(self.lines@, j, b),
        ensures
            !holds_base(self.lines@, b),
    {
        if holds_base(self.lines@, b) {
            let j = choose|j: int| holds(self.lines@, j, b);
            assert(present(self.lines@, j));
            assert(self.class_slot(self.requester, j, set));
        }
    }

    /// Reads the line `base` from the level below into the empty slot `v`
    /// of the requester's ways `lo..hi`.
    fn fill_way(&mut self, v: usize, base: usize, use_count: usize, set: usize, lo: usize, hi: usize, clock: &mut Clock)
        requires
            old(self).state_wf(),
            !present(old(self).lines@, v as int),
            lo <= v < hi <= old(self).lines@.len(),
            forall|i: int| lo <= i < hi ==> #[trigger] old(self).class_slot(old(self).requester, i, set as int),
            (base as int) % old(self).line_len() == 0,
            base + old(self).line_len() <= old(self).mem_len(),
            line_accessible(old(self).backing, base as int, old(self).line_len()),
            old(self).set_of(base as int) == set,
            old(self).state_coherent() ==> !holds_base(old(self).lines@, base as int),
        ensures
            final(self).state_wf(),
            final(self).same_frame(old(self)),
            final(self).use_counter == old(self).use_counter,
            final(self).public_ways == old(self).public_ways,
            final(self).public_accesses == old(self).public_accesses,
            final(self).public_misses == old(self).public_misses,
            final(clock)@ >= old(clock)@,
            old(self).backing.fixed_costs() matches Some(c) ==> final(clock)@ == tick_by(old(clock)@, old(self).line_len() * c.0),
            holds(final(self).lines@, v as int, base as int),
            at(final(self).lines@, v as int).owner == old(self).requester,
            final(self).lines@ == old(self).lines@.update(v as int, final(self).lines@[v as int]),
            old(self).state_coherent() ==> {
                &&& final(self).state_coherent()
                &&& final(self).full_view() == old(self).full_view()
            },
    {
        let ghost s0 = *self;
        let ghost ls = self.line_len();
        let ghost n = self.mem_len();
        let mut dropped: Vec<usize> = Vec::new();
        let data = read_line(&mut self.backing, &mut dropped, base, self.line_size, clock);
        let ghost sx = *self;
        proof {
            self.lemma_lines_backing(s0);
        }
        let ghost d = data@;
        let line = CachedLine {
            base_addr: base,
            data,
            dirty: false,
            last_used: use_count,
            used: false,
            owner: self.requester,
            owner_pid: 0,
            owner_domain: 0,
            rmt_id: 0,
            logical_index: 0,
            logical_tag: 0,
        };
        put_slot(&mut self.lines, v, line);
        proof {
            assert(line_accessible(sx.backing, base as int, ls)) by {
                assert forall|k: int| 0 <= k < ls implies #[trigger] sx.backing.accessible(base + k) by {
                    assert(s0.backing.accessible(base + k));
                }
            }
            assert(old(self).class_slot(old(self).requester, v as int, set as int));
            assert(self.slot_set(v as int) == set);
            assert forall|i: int| #[trigger] present(self.lines@, i) implies {
                &&& at(self.lines@, i).data@.len() == self.line_len()
                &&& (at(self.lines@, i).base_addr as int) % self.line_len() == 0
                &&& at(self.lines@, i).base_addr + self.line_len() <= self.mem_len()
                &&& line_accessible(self.backing, at(self.lines@, i).base_addr as int, self.line_len())
                &&& self.set_of(at(self.lines@, i).base_addr as int) == self.slot_set(i)
            } by {
                if i != v {
                    assert(present(sx.lines@, i));
                }
            }
            if s0.state_coherent() {
                let t = sx.lines@;
                let m = sx.backing.view();
                sx.lemma_table();
                lemma_overlay_put(t, ls, n, m, v as int, line);
                lemma_unheld_line(t, ls, n, m, base as int, d);
                lemma_clean_put(t, ls, m, v as int, line);
                assert forall|i: int| #[trigger] present(self.lines@, i) implies {
                    &&& at(self.lines@, i).owner == self.requester
                    &&& way_of_class(self.requester, self.slot_way(i), self.public_ways as int, self.associativity as int)
                } by {
                    if i != v {
                        assert(present(t, i));
                    } else {
                        assert(old(self).class_slot(old(self).requester, i, set as int));
                    }
                }
                assert forall|i: int, j: int|
                    #![trigger present(self.lines@, i), present(self.lines@, j)]
                    present(self.lines@, i) && present(self.lines@, j)
                        && at(self.lines@, i).base_addr == at(self.lines@, j).base_addr implies i == j by {
                    if i != v && j != v {
                        assert(present(t, i) && present(t, j));
                    } else if i == v && j != v {
                        assert(holds(t, j, base as int));
                    } else if i != v && j == v {
                        assert(holds(t, i, base as int));
                    }
                }
            }
        }
    }

    /// Makes room in the requester's ways `lo..hi` and reads the line
    /// `base` into it; returns the slot.
    fn miss_fill(&mut self, base: usize, use_count: usize, set: usize, lo: usize, hi: usize, clock: &mut Clock) -> (v: usize)
        requires
            old(self).state_wf(),
            lo < hi <= old(self).lines@.len(),
            forall|i: int| lo <= i < hi ==> #[trigger] old(self).class_slot(old(self).requester, i, set as int),
            forall|i: int| 0 <= i < old(self).lines@.len() && #[trigger] old(self).class_slot(old(self).requester, i, set as int)
                ==> lo <= i < hi,
            (base as int) % old(self).line_len() == 0,
            base + old(self).line_len() <= old(self).mem_len(),
            line_accessible(old(self).backing, base as int, old(self).line_len()),
            old(self).set_of(base as int) == set,
            forall|j: int| lo <= j < hi ==> !#[trigger] holds(old(self).lines@, j, base as int),
        ensures
            final(self).state_wf(),
            final(self).same_frame(old(self)),
            final(self).use_counter == old(self).use_counter,
            final(self).public_ways == old(self).public_ways,
            final(self).public_accesses == old(self).public_accesses,
            final(self).public_misses == old(self).public_misses,
            lo <= v < hi,
            holds(final(self).lines@, v as int, base as int),
            final(clock)@ >= old(clock)@,
            (exists|j: int| lo <= j < hi && !#[trigger] present(old(self).lines@, j)) ==> (old(self).backing.fixed_costs() matches Some(c)
                ==> final(clock)@ == tick_by(old(clock)@, old(self).line_len() * c.0)),
            old(self).state_coherent() ==> {
                &&& final(self).state_coherent()
                &&& final(self).full_view() == old(self).full_view()
            },
    {
        let ghost s0 = *self;
        let ghost ls = self.line_len();
        let victim = self.find_victim(lo, hi);
        proof {
            if exists|j: int| lo <= j < hi && !#[trigger] present(s0.lines@, j) {
                let j = choose|j: int| lo <= j < hi && !#[trigger] present(s0.lines@, j);
                assert(!present(s0.lines@, victim as int));
            }
        }
        let occupied = self.lines[victim].is_some();
        if occupied {
            self.remove_slot(victim, clock);
        }
        let ghost s1 = *self;
        proof {
            assert forall|i: int| lo <= i < hi implies #[trigger] s1.class_slot(s1.requester, i, set as int) by {
                assert(s0.class_slot(s0.requester, i, set as int));
            }
            assert forall|i: int| 0 <= i < s1.lines@.len() && #[trigger] s1.class_slot(s1.requester, i, set as int)
                implies lo <= i < hi by {
                assert(s0.class_slot(s0.requester, i, set as int));
            }
            assert(line_accessible(s1.backing, base as int, ls)) by {
                assert forall|k: int| 0 <= k < ls implies #[trigger] s1.backing.accessible(base + k) by {
                    assert(s0.backing.accessible(base + k));
                }
            }
            if s1.state_coherent() {
                assert forall|j: int| lo <= j < hi implies !#[trigger] holds(s1.lines@, j, base as int) by {
                    if j != victim {
                        assert(!holds(s0.lines@, j, base as int));
                    }
                }
                s1.lemma_not_held(base as int, set as int, lo as int, hi as int);
            }
        }
        self.fill_way(victim, base, use_count, set, lo, hi, clock);
        proof {
            Self::lemma_frame_trans(s0, s1, *self);
        }
        victim
    }

    /// Reads the byte at `addr` from the line in slot `w`, marking it used.
    fn read_way(&mut self, w: usize, addr: usize, use_count: usize) -> (r: u8)
        requires
            old(self).state_wf(),
            old(self).can_access(addr as int),
            holds(old(self).lines@, w as int, old(self).base_of(addr as int)),
        ensures
            holds(final(self).lines@, w as int, final(self).base_of(addr as int)),
            final(self).state_wf(),
            final(self).same_frame(old(self)),
            final(self).public_ways == old(self).public_ways,
            final(self).public_accesses == old(self).public_accesses,
            final(self).public_misses == old(self).public_misses,
            old(self).state_coherent() ==> {
                &&& final(self).state_coherent()
                &&& final(self).full_view() == old(self).full_view()
                &&& r == old(self).full_view()[addr as int]
            },
    {
        let ghost s0 = *self;
        let ghost ls = self.line_len();
        let ghost n = self.mem_len();
        let ghost a = addr as int;
        proof {
            self.lemma_can_access(a);
        }
        let base = self.line_base(addr);
        let offset = addr - base;
        let slot = take_slot(&mut self.lines, w);
        match slot {
            Some(mut line) => {
                proof {
                    assert(present(s0.lines@, w as int));
                }
                line.last_used = use_count;
                let byte = line.data[offset];
                put_slot(&mut self.lines, w, line);
                proof {
                    let o = s0.lines@;
                    let now = self.lines@;
                    assert(now =~= o.update(w as int, Some(line)));
                    assert forall|i: int| #[trigger] present(now, i) implies present(o, i)
                        && at(now, i).base_addr == at(o, i).base_addr && at(now, i).owner == at(o, i).owner
                        && at(now, i).data@ == at(o, i).data@ && at(now, i).dirty == at(o, i).dirty by {}
                    if s0.state_coherent() {
                        s0.lemma_table();
                        assert(covers(o, ls, w as int, a));
                        lemma_overlay_hit(o, ls, n, s0.backing.view(), w as int, a);
                        lemma_same_content(o, now, ls, n, s0.backing.view());
                        assert forall|i: int, j: int|
                            #![trigger present(now, i), present(now, j)]
                            present(now, i) && present(now, j) && at(now, i).base_addr == at(now, j).base_addr implies i == j by {
                            assert(present(o, i) && present(o, j));
                        }
                    }
                }
                byte
            },
            None => {
                proof {
                    assert(false);
                }
                0
            },
        }
    }

    /// Writes `value` at `addr` into the line in slot `w`, marking it used
    /// and dirty.
    fn write_way(&mut self, w: usize, addr: usize, value: u8, use_count: usize)
        requires
            old(self).state_wf(),
            old(self).can_access(addr as int),
            holds(old(self).lines@, w as int, old(self).base_of(addr as int)),
        ensures
            holds(final(self).lines@, w as int, final(self).base_of(addr as int)),
            final(self).state_wf(),
            final(self).same_frame(old(self)),
            final(self).public_ways == old(self).public_ways,
            final(self).public_accesses == old(self).public_accesses,
            final(self).public_misses == old(self).public_misses,
            old(self).state_coherent() ==> {
                &&& final(self).state_coherent()
                &&& final(self).full_view() == old(self).full_view().update(addr as int, value)
            },
    {
        let ghost s0 = *self;
        let ghost ls = self.line_len();
        let ghost n = self.mem_len();
        let ghost a = addr as int;
        proof {
            self.lemma_can_access(a);
        }
        let base = self.line_base(addr);
        let offset = addr - base;
        let slot = take_slot(&mut self.lines, w);
        match slot {
            Some(mut line) => {
                proof {
                    assert(present(s0.lines@, w as int));
                }
                line.last_used = use_count;
                line.dirty = true;
                line.data.set(offset, value);
                put_slot(&mut self.lines, w, line);
                proof {
                    let o = s0.lines@;
                    let now = self.lines@;
                    assert(now =~= o.update(w as int, Some(line)));
                    assert forall|i: int| #[trigger] present(now, i) implies present(o, i)
                        && at(now, i).base_addr == at(o, i).base_addr && at(now, i).owner == at(o, i).owner
                        && at(now, i).data@.len() == at(o, i).data@.len() by {}
                    if s0.state_coherent() {
                        s0.lemma_table();
                        assert(covers(o, ls, w as int, a));
                        lemma_overlay_write(o, ls, n, s0.backing.view(), w as int, a, value, line);
                        lemma_clean_put(o, ls, s0.backing.view(), w as int, line);
                        assert forall|i: int, j: int|
                            #![trigger present(now, i), present(now, j)]
                            present(now, i) && present(now, j) && at(now, i).base_addr == at(now, j).base_addr implies i == j by {
                            assert(present(o, i) && present(o, j));
                        }
                    }
                }
            },
            None => {
                proof {
                    assert(false);
                }
            },
        }
    }
}

impl<M: MemoryDevice> SecDcpMemory<M> {
    /// Finds or brings in the slot that holds the line of `addr` among the
    /// requester's ways; returns the slot and whether it hit.
    fn locate(&mut self, addr: usize, use_count: usize, clock: &mut Clock) -> (res: (usize, bool))
        requires
            old(self).state_wf(),
            old(self).can_access(addr as int),
        ensures
            final(self).state_wf(),
            final(self).same_frame(old(self)),
            final(self).public_ways == old(self).public_ways,
            final(self).public_accesses == old(self).public_accesses,
            final(self).public_misses == old(self).public_misses,
            final(self).can_access(addr as int),
            holds(final(self).lines@, res.0 as int, final(self).base_of(addr as int)),
            way_of_class(final(self).requester, final(self).slot_way(res.0 as int), final(self).public_ways as int, final(self).associativity as int),
            final(clock)@ >= old(clock)@,
            old(self).held_for_requester(old(self).base_of(addr as int)) ==> res.1 && final(clock)@ == old(clock)@,
            res.1 ==> old(self).held_for_requester(old(self).base_of(addr as int)),
            old(self).room_for_requester(addr as int) && !old(self).held_for_requester(old(self).base_of(addr as int))
                ==> (old(self).backing.fixed_costs() matches Some(c) ==> final(clock)@ == tick_by(
                old(clock)@,
                old(self).line_len() * c.0,
            )),
            old(self).state_coherent() ==> {
                &&& final(self).state_coherent()
                &&& final(self).full_view() == old(self).full_view()
            },
    {
        proof {
            self.lemma_can_access(addr as int);
        }
        let base = self.line_base(addr);
        let set = self.set_index(addr);
        let (lo, hi) = self.class_slots(self.requester, set);
        proof {
            if self.held_for_requester(base as int) {
                let j = choose|j: int| holds(self.lines@, j, base as int)
                    && #[trigger] way_of_class(self.requester, self.slot_way(j), self.public_ways as int, self.associativity as int);
                assert(present(self.lines@, j));
                assert(self.class_slot(self.requester, j, set as int));
            }
        }
        let res = match find_in(&self.lines, lo, hi, base) {
            Some(w) => {
                proof {
                    assert(self.class_slot(self.requester, w as int, set as int));
                    assert(holds(self.lines@, w as int, base as int));
                }
                (w, true)
            },
            None => {
                let ghost sb = *self;
                proof {
                    if old(self).room_for_requester(addr as int) {
                        let j = choose|j: int|
                            0 <= j < old(self).lines@.len() && #[trigger] old(self).class_slot(
                                old(self).requester,
                                j,
                                old(self).set_of(old(self).base_of(addr as int)),
                            ) && !present(old(self).lines@, j);
                        assert(sb.class_slot(sb.requester, j, set as int));
                        assert(lo <= j < hi);
                        assert(!present(sb.lines@, j));
                    }
                }
                let w = self.miss_fill(base, use_count, set, lo, hi, clock);
                proof {
                    assert(sb.class_slot(sb.requester, w as int, set as int));
                }
                (w, false)
            },
        };
        proof {
            assert forall|k: int| 0 <= k < self.line_len() implies #[trigger] self.backing.accessible(self.base_of(addr as int) + k) by {
                assert(old(self).backing.accessible(old(self).base_of(addr as int) + k));
            }
        }
        res
    }

    fn load_u8_internal(&mut self, addr: usize, charge_timing: bool, clock: &mut Clock) -> (r: u8)
        requires
            old(self).state_wf(),
            old(self).can_access(addr as int),
        ensures
            old(self).room_for_requester(addr as int) && !old(self).held_for_requester(old(self).base_of(addr as int))
                && !old(self).ends_epoch() ==> (old(self).backing.fixed_costs() matches Some(c) ==> final(clock)@ == tick_by(
                old(clock)@,
                old(self).line_len() * c.0 + (if charge_timing && old(self).timed { old(self).timing.load_miss as int } else { 0 }),
            )),
            !old(self).ends_epoch() ==> final(self).held_for_requester(old(self).base_of(addr as int)),
            final(self).state_wf(),
            final(self).same_frame(old(self)),
            old(self).requester is High ==> final(self).public_ways <= old(self).public_ways,
            old(self).held_for_requester(old(self).base_of(addr as int)) && !old(self).ends_epoch()
                ==> final(clock)@ == saturating_tick(old(clock)@, if charge_timing && old(self).timed { old(self).timing.load_hit } else { 0 }),
            !old(self).held_for_requester(old(self).base_of(addr as int)) ==> final(clock)@ >= saturating_tick(
                old(clock)@,
                if charge_timing && old(self).timed { old(self).timing.load_miss } else { 0 },
            ),
            final(clock)@ >= old(clock)@,
            old(self).state_coherent() ==> {
                &&& final(self).state_coherent()
                &&& final(self).full_view() == old(self).full_view()
                &&& r == old(self).full_view()[addr as int]
            },
    {
        let requester = self.requester;
        let use_count = self.next_use_counter();
        let ghost s0 = *self;
        proof {
            if old(self).held_for_requester(old(self).base_of(addr as int)) {
                let j = choose|j: int| holds(old(self).lines@, j, old(self).base_of(addr as int))
                    && #[trigger] way_of_class(old(self).requester, old(self).slot_way(j), old(self).public_ways as int, old(self).associativity as int);
                assert(holds(s0.lines@, j, s0.base_of(addr as int)));
                assert(way_of_class(s0.requester, s0.slot_way(j), s0.public_ways as int, s0.associativity as int));
            }
        }
        let (w, hit) = self.locate(addr, use_count, clock);
        proof {
            if hit {
                let j = choose|j: int| holds(s0.lines@, j, s0.base_of(addr as int))
                    && #[trigger] way_of_class(s0.requester, s0.slot_way(j), s0.public_ways as int, s0.associativity as int);
                assert(holds(old(self).lines@, j, old(self).base_of(addr as int)));
                assert(way_of_class(old(self).requester, old(self).slot_way(j), old(self).public_ways as int, old(self).associativity as int));
            }
        }
        let ghost s1 = *self;
        let byte = self.read_way(w, addr, use_count);
        proof {
            Self::lemma_frame_trans(s0, s1, *self);
        }
        let ghost s2 = *self;
        match requester {
            SecurityClass::Low => self.record_public_access(!hit),
            SecurityClass::High => {},
        }
        if charge_timing {
            if hit {
                self.charge(self.timing.load_hit, clock);
            } else {
                self.charge(self.timing.load_miss, clock);
            }
        }
        proof {
            assert(self.lines_wf());
        }
        let ghost s3 = *self;
        self.maybe_repartition(clock);
        proof {
            Self::lemma_frame_trans(s0, s3, *self);
            if !old(self).ends_epoch() {
                assert(s3.public_accesses < s3.policy.epoch_public_accesses);
                if old(self).room_for_requester(addr as int) && !old(self).held_for_requester(old(self).base_of(addr as int)) {
                    if let Some(c) = old(self).backing.fixed_costs() {
                        let j = choose|j: int|
                            0 <= j < old(self).lines@.len() && #[trigger] old(self).class_slot(
                                old(self).requester,
                                j,
                                old(self).set_of(old(self).base_of(addr as int)),
                            ) && !present(old(self).lines@, j);
                        assert(s0.class_slot(s0.requester, j, s0.set_of(s0.base_of(addr as int))));
                        assert(s0.room_for_requester(addr as int));
                        assert(!s0.held_for_requester(s0.base_of(addr as int)));
                        assert(!hit);
                        lemma_tick_by_twice(old(clock)@, old(self).line_len() * c.0, if charge_timing && old(self).timed {
                            old(self).timing.load_miss as int
                        } else {
                            0int
                        });
                    }
                }
                assert(holds(self.lines@, w as int, old(self).base_of(addr as int)));
                assert(way_of_class(self.requester, self.slot_way(w as int), self.public_ways as int, self.associativity as int));
            }
        }
        byte
    }

    fn store_u8_internal(&mut self, addr: usize, value: u8, charge_timing: bool, clock: &mut Clock)
        requires
            old(self).state_wf(),
            old(self).can_access(addr as int),
        ensures
            old(self).room_for_requester(addr as int) && !old(self).held_for_requester(old(self).base_of(addr as int))
                && !old(self).ends_epoch() ==> (old(self).backing.fixed_costs() matches Some(c) ==> final(clock)@ == tick_by(
                old(clock)@,
                old(self).line_len() * c.0 + (if charge_timing && old(self).timed { old(self).timing.store_miss as int } else { 0 }),
            )),
            !old(self).ends_epoch() ==> final(self).held_for_requester(old(self).base_of(addr as int)),
            final(self).state_wf(),
            final(self).same_frame(old(self)),
            old(self).requester is High ==> final(self).public_ways <= old(self).public_ways,
            old(self).held_for_requester(old(self).base_of(addr as int)) && !old(self).ends_epoch()
                ==> final(clock)@ == saturating_tick(old(clock)@, if charge_timing && old(self).timed { old(self).timing.store_hit } else { 0 }),
            !old(self).held_for_requester(old(self).base_of(addr as int)) ==> final(clock)@ >= saturating_tick(
                old(clock)@,
                if charge_timing && old(self).timed { old(self).timing.store_miss } else { 0 },
            ),
            final(clock)@ >= old(clock)@,
            old(self).state_coherent() ==> {
                &&& final(self).state_coherent()
                &&& final(self).full_view() == old(self).full_view().update(addr as int, value)
            },
    {
        let requester = self.requester;
        let use_count = self.next_use_counter();
        let ghost s0 = *self;
        proof {
            if old(self).held_for_requester(old(self).base_of(addr as int)) {
                let j = choose|j: int| holds(old(self).lines@, j, old(self).base_of(addr as int))
                    && #[trigger] way_of_class(old(self).requester, old(self).slot_way(j), old(self).public_ways as int, old(self).associativity as int);
                assert(holds(s0.lines@, j, s0.base_of(addr as int)));
                assert(way_of_class(s0.requester, s0.slot_way(j), s0.public_ways as int, s0.associativity as int));
            }
        }
        let (w, hit) = self.locate(addr, use_count, clock);
        proof {
            if hit {
                let j = choose|j: int| holds(s0.lines@, j, s0.base_of(addr as int))
                    && #[trigger] way_of_class(s0.requester, s0.slot_way(j), s0.public_ways as int, s0.associativity as int);
                assert(holds(old(self).lines@, j, old(self).base_of(addr as int)));
                assert(way_of_class(old(self).requester, old(self).slot_way(j), old(self).public_ways as int, old(self).associativity as int));
            }
        }
        let ghost s1 = *self;
        self.write_way(w, addr, value, use_count);
        proof {
            Self::lemma_frame_trans(s0, s1, *self);
        }
        match requester {
            SecurityClass::Low => self.record_public_access(!hit),
            SecurityClass::High => {},
        }
        if charge_timing {
            if hit {
                self.charge(self.timing.store_hit, clock);
            } else {
                self.charge(self.timing.store_miss, clock);
            }
        }
        proof {
            assert(self.lines_wf());
        }
        let ghost s3 = *self;
        self.maybe_repartition(clock);
        proof {
            Self::lemma_frame_trans(s0, s3, *self);
            if !old(self).ends_epoch() {
                assert(s3.public_accesses < s3.policy.epoch_public_accesses);
                if old(self).room_for_requester(addr as int) && !old(self).held_for_requester(old(self).base_of(addr as int)) {
                    if let Some(c) = old(self).backing.fixed_costs() {
                        let j = choose|j: int|
                            0 <= j < old(self).lines@.len() && #[trigger] old(self).class_slot(
                                old(self).requester,
                                j,
                                old(self).set_of(old(self).base_of(addr as int)),
                            ) && !present(old(self).lines@, j);
                        assert(s0.class_slot(s0.requester, j, s0.set_of(s0.base_of(addr as int))));
                        assert(s0.room_for_requester(addr as int));
                        assert(!s0.held_for_requester(s0.base_of(addr as int)));
                        assert(!hit);
                        lemma_tick_by_twice(old(clock)@, old(self).line_len() * c.0, if charge_timing && old(self).timed {
                            old(self).timing.store_miss as int
                        } else {
                            0int
                        });
                    }
                }
                assert(holds(self.lines@, w as int, old(self).base_of(addr as int)));
                assert(way_of_class(self.requester, self.slot_way(w as int), self.public_ways as int, self.associativity as int));
            }
        }
    }
}

impl<M: MemoryDevice> SecDcpMemory<M> {
    /// `self` holds the same lines in the same ways over the same level
    /// below as `other`.
    pub open spec fn same_lines(&self, other: &Self) -> bool {
        &&& self.wf() == other.wf()
        &&& self.view() == other.view()
        &&& forall|b: int| #[trigger] self.accessible(b) == other.accessible(b)
        &&& forall|b: int| #[trigger] self.holds_line(b) == other.holds_line(b)
        &&& forall|s: int, w: int| #[trigger] self.owner_at(s, w) == other.owner_at(s, w)
        &&& forall|s: int, w: int| #[trigger] self.base_at(s, w) == other.base_at(s, w)
        &&& self.line_len() == other.line_len()
        &&& self.ways() == other.ways()
        &&& self.backing_spec() == other.backing_spec()
    }

    /// `self` is `other` up to configuration that no access reads.
    pub open spec fn same_cache(&self, other: &Self) -> bool {
        &&& self.same_lines(other)
        &&& self.coherent() == other.coherent()
        &&& self.requester_class() == other.requester_class()
        &&& self.public_way_count() == other.public_way_count()
        &&& self.policy_spec() == other.policy_spec()
        &&& self.epoch_counts() == other.epoch_counts()
    }

    /// The low class's accesses and misses so far in the current epoch.
    pub closed spec fn epoch_counts(&self) -> (u64, u64) {
        (self.public_accesses, self.public_misses)
    }

    /// Whether no line is resident.
    pub closed spec fn is_empty(&self) -> bool {
        forall|i: int| !#[trigger] present(self.lines@, i)
    }

    /// An empty cache of `num_sets` sets of `associativity` lines of
    /// `line_size` bytes in front of `backing`, with the default policy,
    /// one way for the low class, serving the high class.
    pub fn new(line_size: usize, num_sets: usize, associativity: usize, backing: M) -> (c: Self)
        requires
            line_size > 0,
            num_sets > 0,
            associativity > 1,
            num_sets * associativity <= usize::MAX,
            backing.wf(),
        ensures
            c.wf(),
            c.is_empty(),
            c.view() == backing.view(),
            c.coherent() == backing_sound(backing),
            c.backing_spec() == backing,
            c.line_len() == line_size,
            c.ways() == associativity,
            !c.is_timed(),
            c.timing_spec() == CacheTiming::default_spec(),
            c.requester_class() == SecurityClass::High,
            c.public_way_count() == 1,
            c.epoch_counts() == (0u64, 0u64),
            c.policy_spec().epoch_public_accesses == 256,
            c.policy_spec().increase_threshold == 600_000,
            c.policy_spec().decrease_threshold == 100_000,
            c.policy_spec().min_high_ways == 1,
            c.policy_spec().min_low_ways == 1,
            forall|s: int, w: int| #[trigger] c.owner_at(s, w) is None,
            forall|b: int| #[trigger] c.holds_line(b) == backing.holds_line(b),
    {
        let total = num_sets * associativity;
        let mut lines: Vec<Option<CachedLine>> = Vec::new();
        let mut i: usize = 0;
        while i < total
            invariant
                i <= total,
                lines@.len() == i,
                forall|j: int| 0 <= j < i ==> #[trigger] lines@[j] is None,
            decreases total - i,
        {
            lines.push(None);
            i = i + 1;
        }
        let c = SecDcpMemory {
            line_size,
            num_sets,
            associativity,
            lines,
            use_counter: 0,
            backing,
            timed: false,
            timing: CacheTiming::default(),
            policy: SecDcpPolicy::default(),
            requester: SecurityClass::High,
            public_ways: 1,
            public_accesses: 0,
            public_misses: 0,
        };
        proof {
            assert forall|j: int| !#[trigger] present(c.lines@, j) by {
                if 0 <= j < c.lines@.len() {
                    assert(c.lines@[j] is None);
                }
            }
            assert forall|b: int| !#[trigger] holds_base(c.lines@, b) by {
                if holds_base(c.lines@, b) {
                    let j = choose|j: int| holds(c.lines@, j, b);
                    assert(present(c.lines@, j));
                }
            }
            assert forall|s: int, w: int| #[trigger] c.owner_at(s, w) is None by {
                assert(!present(c.lines@, s * c.associativity + w));
            }
            assert(c.full_view() =~= backing.view());
        }
        c
    }

    /// Makes every later access charge the clock it is given.
    pub fn with_clock(self) -> (c: Self)
        ensures
            c.same_cache(&self),
            c.is_empty() == self.is_empty(),
            c.timing_spec() == self.timing_spec(),
            c.is_timed(),
    {
        SecDcpMemory { timed: true, ..self }
    }

    pub fn with_timing(self, timing: CacheTiming) -> (c: Self)
        ensures
            c.same_cache(&self),
            c.is_empty() == self.is_empty(),
            c.is_timed() == self.is_timed(),
            c.timing_spec() == timing,
    {
        SecDcpMemory { timing, ..self }
    }

    /// Moves the split by `policy`: the low class starts with the fewest
    /// ways `policy` gives it.
    pub fn with_policy(self, policy: SecDcpPolicy) -> (c: Self)
        requires
            self.wf(),
            policy_fits(policy, self.ways()),
            self.epoch_counts().0 < policy.epoch_public_accesses || self.epoch_counts().0 == 0,
        ensures
            c.wf(),
            c.same_lines(&self),
            c.is_empty() == self.is_empty(),
            c.is_timed() == self.is_timed(),
            c.timing_spec() == self.timing_spec(),
            c.requester_class() == self.requester_class(),
            c.epoch_counts() == self.epoch_counts(),
            c.policy_spec() == policy,
            c.public_way_count() == min_public(policy),
            self.coherent() && self.is_empty() ==> c.coherent(),
    {
        let min_p: usize = if policy.min_low_ways >= 1 {
            policy.min_low_ways
        } else {
            1
        };
        let c = SecDcpMemory { policy, public_ways: min_p, ..self };
        proof {
            assert(c.lines_wf());
            if self.coherent() && self.is_empty() {
                assert forall|i: int| #[trigger] present(c.lines@, i) implies {
                    &&& at(c.lines@, i).owner == c.requester
                    &&& way_of_class(c.requester, c.slot_way(i), c.public_ways as int, c.associativity as int)
                } by {
                    assert(!present(self.lines@, i));
                }
            }
        }
        c
    }

    /// How many ways of every set the low class holds.
    pub fn public_ways(&self) -> (n: usize)
        ensures
            n == self.public_way_count(),
    {
        self.public_ways
    }

    /// Gives the low class `n` ways, flushing its lines out of the ways it
    /// gives back.
    pub fn force_public_ways(&mut self, n: usize, clock: &mut Clock)
        requires
            old(self).wf(),
            min_public(old(self).policy_spec()) <= n <= max_public(old(self).policy_spec(), old(self).ways()),
        ensures
            final(self).wf(),
            final(self).public_way_count() == n,
            final(self).requester_class() == old(self).requester_class(),
            final(self).policy_spec() == old(self).policy_spec(),
            final(self).view() == old(self).view() || !old(self).coherent(),
            forall|s: int, w: int| 0 <= w < old(self).ways() ==> #[trigger] final(self).owner_at(s, w) == if n <= w
                < old(self).public_way_count() && old(self).owner_at(s, w) == Some(SecurityClass::Low) {
                None::<SecurityClass>
            } else {
                old(self).owner_at(s, w)
            },
            final(clock)@ >= old(clock)@,
    {
        let current = self.public_ways;
        let mut w = n;
        let ghost s0 = *self;
        while w < current
            invariant
                self.state_wf(),
                self.same_frame(&s0),
                self.public_ways == current,
                self.public_accesses == s0.public_accesses,
                self.public_misses == s0.public_misses,
                current == s0.public_ways,
                n <= w || current <= w,
                forall|i: int| #[trigger] present(self.lines@, i) ==> present(s0.lines@, i)
                    && at(self.lines@, i) == at(s0.lines@, i),
                forall|i: int| #[trigger] present(s0.lines@, i) ==> (present(self.lines@, i)
                    <==> !(n <= s0.slot_way(i) < w && s0.slot_way(i) < current
                        && at(s0.lines@, i).owner == SecurityClass::Low)),
                clock@ >= old(clock)@,
                s0.state_coherent() ==> self.state_coherent() && self.full_view() == s0.full_view(),
            decreases current - w,
        {
            let ghost s1 = *self;
            self.flush_low_way(w, clock);
            proof {
                Self::lemma_frame_trans(s0, s1, *self);
                assert forall|i: int| #[trigger] present(self.lines@, i) implies present(s0.lines@, i)
                    && at(self.lines@, i) == at(s0.lines@, i) by {
                    assert(present(s1.lines@, i));
                }
                assert forall|i: int| #[trigger] present(s0.lines@, i) implies (present(self.lines@, i)
                    <==> !(n <= s0.slot_way(i) < w + 1 && s0.slot_way(i) < current
                        && at(s0.lines@, i).owner == SecurityClass::Low)) by {
                    if present(s1.lines@, i) {
                        assert(at(s1.lines@, i) == at(s0.lines@, i));
                    }
                }
            }
            w = w + 1;
        }
        self.public_ways = n;
        proof {
            assert forall|s: int, w: int| 0 <= w < s0.associativity implies #[trigger] self.owner_at(s, w) == if n <= w
                < s0.public_ways && s0.owner_at(s, w) == Some(SecurityClass::Low) {
                None::<SecurityClass>
            } else {
                s0.owner_at(s, w)
            } by {
                let i = s * s0.associativity + w;
                if present(s0.lines@, i) {
                    if 0 <= s < s0.num_sets {
                        lemma_slot(s, w, s0.associativity as int, s0.num_sets as int);
                    } else {
                        assert(0 <= i < s0.num_sets * s0.associativity);
                        assert(0 <= s < s0.num_sets) by (nonlinear_arith)
                            requires
                                0 <= s * s0.associativity + w < s0.num_sets * s0.associativity,
                                0 <= w < s0.associativity,
                        ;
                    }
                }
            }
        }
    }

    /// The class owning the line in way `way` of set `set`, if one is there.
    pub fn line_owner(&self, set: usize, way: usize) -> (o: Option<SecurityClass>)
        requires
            self.wf(),
            set < self.num_sets_spec(),
            way < self.ways(),
        ensures
            o == self.owner_at(set as int, way as int),
    {
        proof {
            lemma_slot(set as int, way as int, self.associativity as int, self.num_sets as int);
        }
        match &self.lines[set * self.associativity + way] {
            Some(l) => Some(l.owner),
            None => None,
        }
    }

    /// How many sets the cache has.
    pub closed spec fn num_sets_spec(&self) -> int {
        self.num_sets as int
    }

    /// The level below.
    pub fn backing_memory(&self) -> (m: &M)
        ensures
            *m == self.backing_spec(),
    {
        &self.backing
    }

    /// A cache's accessible addresses depend only on its line size and on
    /// the level below.
    proof fn lemma_accessible_frame(s1: Self, s2: Self)
        requires
            s2.line_size == s1.line_size,
            forall|b: int| #[trigger] s2.backing.accessible(b) == s1.backing.accessible(b),
        ensures
            forall|b: int| #[trigger] s2.can_access(b) == s1.can_access(b),
    {
        assert forall|b: int| #[trigger] s2.can_access(b) == s1.can_access(b) by {
            if s1.can_access(b) {
                assert forall|k: int| 0 <= k < s2.line_len() implies #[trigger] s2.backing.accessible(s2.base_of(b) + k) by {
                    assert(s1.backing.accessible(s1.base_of(b) + k));
                }
            }
            if s2.can_access(b) {
                assert forall|k: int| 0 <= k < s1.line_len() implies #[trigger] s1.backing.accessible(s1.base_of(b) + k) by {
                    assert(s2.backing.accessible(s2.base_of(b) + k));
                }
            }
        }
    }

    /// When the level below can reach every address below `n`, and `n` is a
    /// whole number of lines, so can this cache.
    pub proof fn lemma_accessible_below(&self, n: int)
        requires
            self.line_len() > 0,
            n >= 0,
            n % self.line_len() == 0,
            forall|b: int| 0 <= b < n ==> #[trigger] self.backing_spec().accessible(b),
        ensures
            forall|a: int| 0 <= a < n ==> #[trigger] self.accessible(a),
    {
        assert forall|a: int| 0 <= a < n implies #[trigger] self.accessible(a) by {
            let ls = self.line_len();
            lemma_base_of_props(a, ls);
            lemma_line_fits(a, ls, n);
            assert forall|k: int| 0 <= k < ls implies #[trigger] self.backing.accessible(self.base_of(a) + k) by {
                assert(0 <= self.base_of(a) + k < n);
                assert(self.backing_spec().accessible(self.base_of(a) + k));
            }
        }
    }
}

impl<M: MemoryDevice> SecurityClassControl for SecDcpMemory<M> {
    open spec fn attributed_class(&self) -> SecurityClass {
        self.requester_class()
    }

    fn set_requester_class(&mut self, class: SecurityClass)
        ensures
            final(self).same_lines(old(self)),
            final(self).requester_class() == class,
            final(self).public_way_count() == old(self).public_way_count(),
            final(self).policy_spec() == old(self).policy_spec(),
            final(self).epoch_counts() == old(self).epoch_counts(),
    {
        self.requester = class;
        proof {
            assert(self.lines_wf() == old(self).lines_wf());
        }
    }
}

impl<M: MemoryDevice> MemoryDevice for SecDcpMemory<M> {
    closed spec fn view(&self) -> Seq<u8> {
        self.full_view()
    }

    closed spec fn wf(&self) -> bool {
        self.state_wf()
    }

    closed spec fn accessible(&self, addr: int) -> bool {
        self.can_access(addr)
    }

    closed spec fn coherent(&self) -> bool {
        self.state_coherent()
    }

    open spec fn exclusive(&self, addr: int) -> bool {
        true
    }

    closed spec fn outgoing(&self) -> Seq<usize> {
        Seq::empty()
    }

    open spec fn fixed_costs(&self) -> Option<(u64, u64)> {
        None
    }

    closed spec fn holds_line(&self, addr: int) -> bool {
        ||| holds_base(self.lines@, self.base_of(addr))
        ||| self.backing.holds_line(addr)
    }

    proof fn lemma_accessible_in_range(&self, addr: int) {
        self.lemma_can_access(addr);
    }

    fn load_u8(&mut self, addr: usize, clock: &mut Clock) -> (r: u8)
        ensures
            old(self).room_for_requester(addr as int) && !old(self).held_for_requester(old(self).base_of(addr as int))
                && !old(self).ends_epoch() ==> (old(self).backing_spec().fixed_costs() matches Some(c) ==> final(clock)@
                == tick_by(
                old(clock)@,
                old(self).line_len() * c.0 + (if old(self).is_timed() { old(self).timing_spec().load_miss as int } else { 0 }),
            )),
            !old(self).ends_epoch() ==> final(self).held_for_requester(old(self).base_of(addr as int)),
            old(self).held_for_requester(old(self).base_of(addr as int)) && !old(self).ends_epoch()
                ==> final(clock)@ == saturating_tick(old(clock)@, if old(self).is_timed() { old(self).timing_spec().load_hit } else { 0 }),
            !old(self).held_for_requester(old(self).base_of(addr as int)) ==> final(clock)@ >= saturating_tick(
                old(clock)@,
                if old(self).is_timed() { old(self).timing_spec().load_miss } else { 0 },
            ),
            old(self).requester_class() is High ==> final(self).public_way_count() <= old(self).public_way_count(),
    {
        let r = self.load_u8_internal(addr, true, clock);
        proof {
            assert(self.fixed_costs() == old(self).fixed_costs());
            Self::lemma_accessible_frame(*old(self), *self);
        }
        r
    }

    fn store_u8(&mut self, addr: usize, n: u8, clock: &mut Clock)
        ensures
            old(self).room_for_requester(addr as int) && !old(self).held_for_requester(old(self).base_of(addr as int))
                && !old(self).ends_epoch() ==> (old(self).backing_spec().fixed_costs() matches Some(c) ==> final(clock)@
                == tick_by(
                old(clock)@,
                old(self).line_len() * c.0 + (if old(self).is_timed() { old(self).timing_spec().store_miss as int } else { 0 }),
            )),
            !old(self).ends_epoch() ==> final(self).held_for_requester(old(self).base_of(addr as int)),
            old(self).held_for_requester(old(self).base_of(addr as int)) && !old(self).ends_epoch()
                ==> final(clock)@ == saturating_tick(old(clock)@, if old(self).is_timed() { old(self).timing_spec().store_hit } else { 0 }),
            !old(self).held_for_requester(old(self).base_of(addr as int)) ==> final(clock)@ >= saturating_tick(
                old(clock)@,
                if old(self).is_timed() { old(self).timing_spec().store_miss } else { 0 },
            ),
            old(self).requester_class() is High ==> final(self).public_way_count() <= old(self).public_way_count(),
    {
        self.store_u8_internal(addr, n, true, clock);
        proof {
            assert(self.fixed_costs() == old(self).fixed_costs());
            Self::lemma_accessible_frame(*old(self), *self);
        }
    }

    fn load_u16(&mut self, addr: usize, clock: &mut Clock) -> (r: u16)
        ensures
            old(self).requester_class() is High ==> final(self).public_way_count() <= old(self).public_way_count(),
    {
        proof {
            self.lemma_can_access(addr + 1);
        }
        let second = self.line_base(addr + 1) != self.line_base(addr);
        let ghost s0 = *self;
        let lo = self.load_u8_internal(addr, true, clock);
        proof {
            Self::lemma_accessible_frame(s0, *self);
        }
        let ghost s1 = *self;
        let hi = self.load_u8_internal(addr + 1, second, clock);
        proof {
            Self::lemma_accessible_frame(s1, *self);
            Self::lemma_frame_trans(s0, s1, *self);
            Self::lemma_accessible_frame(s0, *self);
        }
        lo as u16 + hi as u16 * 256
    }

    fn store_u16(&mut self, addr: usize, n: u16, clock: &mut Clock)
        ensures
            old(self).requester_class() is High ==> final(self).public_way_count() <= old(self).public_way_count(),
    {
        proof {
            self.lemma_can_access(addr + 1);
        }
        let second = self.line_base(addr + 1) != self.line_base(addr);
        let ghost s0 = *self;
        self.store_u8_internal(addr, (n % 256) as u8, true, clock);
        proof {
            Self::lemma_accessible_frame(s0, *self);
        }
        let ghost s1 = *self;
        self.store_u8_internal(addr + 1, (n / 256) as u8, second, clock);
        proof {
            Self::lemma_frame_trans(s0, s1, *self);
            Self::lemma_accessible_frame(s0, *self);
        }
    }

    fn load_u32(&mut self, addr: usize, clock: &mut Clock) -> (r: u32)
        ensures
            old(self).requester_class() is High ==> final(self).public_way_count() <= old(self).public_way_count(),
    {
        proof {
            self.lemma_can_access(addr + 3);
        }
        let c1 = self.line_base(addr + 1) != self.line_base(addr);
        let c2 = self.line_base(addr + 2) != self.line_base(addr + 1);
        let c3 = self.line_base(addr + 3) != self.line_base(addr + 2);
        let ghost s0 = *self;
        let b0 = self.load_u8_internal(addr, true, clock);
        proof {
            Self::lemma_accessible_frame(s0, *self);
        }
        let ghost s1 = *self;
        let b1 = self.load_u8_internal(addr + 1, c1, clock);
        proof {
            Self::lemma_frame_trans(s0, s1, *self);
            Self::lemma_accessible_frame(s0, *self);
        }
        let ghost s2 = *self;
        let b2 = self.load_u8_internal(addr + 2, c2, clock);
        proof {
            Self::lemma_frame_trans(s0, s2, *self);
            Self::lemma_accessible_frame(s0, *self);
        }
        let ghost s3 = *self;
        let b3 = self.load_u8_internal(addr + 3, c3, clock);
        proof {
            Self::lemma_frame_trans(s0, s3, *self);
            Self::lemma_accessible_frame(s0, *self);
        }
        b0 as u32 + b1 as u32 * 256 + b2 as u32 * 65536 + b3 as u32 * 16777216
    }

    fn store_u32(&mut self, addr: usize, n: u32, clock: &mut Clock)
        ensures
            old(self).requester_class() is High ==> final(self).public_way_count() <= old(self).public_way_count(),
    {
        proof {
            self.lemma_can_access(addr + 3);
        }
        let c1 = self.line_base(addr + 1) != self.line_base(addr);
        let c2 = self.line_base(addr + 2) != self.line_base(addr + 1);
        let c3 = self.line_base(addr + 3) != self.line_base(addr + 2);
        let ghost s0 = *self;
        self.store_u8_internal(addr, (n % 256) as u8, true, clock);
        proof {
            Self::lemma_accessible_frame(s0, *self);
        }
        let ghost s1 = *self;
        self.store_u8_internal(addr + 1, ((n / 256) % 256) as u8, c1, clock);
        proof {
            Self::lemma_frame_trans(s0, s1, *self);
            Self::lemma_accessible_frame(s0, *self);
        }
        let ghost s2 = *self;
        self.store_u8_internal(addr + 2, ((n / 65536) % 256) as u8, c2, clock);
        proof {
            Self::lemma_frame_trans(s0, s2, *self);
            Self::lemma_accessible_frame(s0, *self);
        }
        let ghost s3 = *self;
        self.store_u8_internal(addr + 3, (n / 16777216) as u8, c3, clock);
        proof {
            Self::lemma_frame_trans(s0, s3, *self);
            Self::lemma_accessible_frame(s0, *self);
        }
    }

    fn peek_u8(&self, addr: usize) -> (r: u8) {
        proof {
            self.lemma_can_access(addr as int);
        }
        let ghost ls = self.line_len();
        let ghost n = self.mem_len();
        let base = self.line_base(addr);
        let offset = addr - base;
        match find_in(&self.lines, 0, self.lines.len(), base) {
            Some(i) => {
                match &self.lines[i] {
                    Some(line) => {
                        proof {
                            assert(present(self.lines@, i as int));
                            if self.state_coherent() {
                                self.lemma_table();
                                assert(covers(self.lines@, ls, i as int, addr as int));
                                lemma_overlay_hit(self.lines@, ls, n, self.backing.view(), i as int, addr as int);
                            }
                        }
                        return line.data[offset];
                    },
                    None => {},
                }
            },
            None => {
                proof {
                    if self.state_coherent() {
                        self.lemma_table();
                        lemma_holds_covers(self.lines@, ls, n, addr as int);
                        assert(!holds_base(self.lines@, base as int));
                    }
                }
            },
        }
        proof {
            assert(self.backing.accessible(base + (addr - base)));
        }
        self.backing.peek_u8(addr)
    }

    fn store_backmost_u8(&mut self, addr: usize, n: u8, clock: &mut Clock) {
        proof {
            self.lemma_can_access(addr as int);
            lemma_base_of_props(addr as int, self.line_len());
            assert(self.backing.accessible(self.base_of(addr as int) + (addr - self.base_of(addr as int))));
        }
        let ghost s0 = *self;
        self.backing.store_backmost_u8(addr, n, clock);
        proof {
            self.lemma_lines_backing(s0);
            Self::lemma_accessible_frame(s0, *self);
            let ls = s0.line_len();
            let m = s0.mem_len();
            if s0.coherent() && !s0.holds_line(addr as int) {
                s0.lemma_table();
                lemma_holds_covers(s0.lines@, ls, m, addr as int);
                assert(s0.backing.exclusive(addr as int));
                lemma_clean_update_uncovered(s0.lines@, ls, m, s0.backing.view(), addr as int, n);
                lemma_overlay_update_uncovered(s0.lines@, ls, m, s0.backing.view(), addr as int, n);
            }
            if s0.coherent() {
                assert forall|a: int| self.backing.accessible(a) implies #[trigger] self.backing.exclusive(a) by {
                    assert(s0.backing.accessible(a));
                }
            }
        }
    }

    fn take_invalidations(&mut self) -> (v: Vec<usize>) {
        Vec::new()
    }
}


} // verus!
