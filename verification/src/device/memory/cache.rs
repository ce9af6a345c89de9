use vstd::prelude::*;

use crate::device::Clock;
use crate::device::clock::{lemma_tick_by_twice, saturating_tick, tick_by};

use super::{InvalidationListener, MemoryDevice, le_u16, le_u32, put_u16, put_u32};
use super::lines::{
    lemma_aligned_disjoint, lemma_base_of, lemma_base_of_props, lemma_line_fits, lemma_slot_in_set, lemma_slot_index,
    overwrite,
};
use super::table::{addr_set, lemma_addr_set_step};
use vstd::arithmetic::div_mod::lemma_fundamental_div_mod;

verus! {

/// `t` with every line whose base is in `gone` dropped.
spec fn drop_lines(t: Seq<Option<CacheLine>>, gone: Set<int>) -> Seq<Option<CacheLine>> {
    Seq::new(
        t.len(),
        |i: int|
            if t[i] is Some && gone.contains(t[i]->0.base_addr as int) {
                None
            } else {
                t[i]
            },
    )
}

/// Dropping the lines of `a`, then those of `b`, drops those of both.
proof fn lemma_drop_twice(t: Seq<Option<CacheLine>>, a: Set<int>, b: Set<int>)
    ensures
        drop_lines(drop_lines(t, a), b) == drop_lines(t, a.union(b)),
{
    assert(drop_lines(drop_lines(t, a), b) =~= drop_lines(t, a.union(b)));
}

/// Cycles that a cache level charges for each kind of event.
#[derive(Clone, Copy, Debug)]
pub struct CacheTiming {
    pub load_hit: u64,
    pub load_miss: u64,
    pub store_hit: u64,
    pub store_miss: u64,
    pub write_back: u64,
    pub invalidation_send: u64,
    pub invalidation_apply: u64,
}

impl CacheTiming {
    /// The timing that `default` gives.
    pub open spec fn default_spec() -> CacheTiming {
        CacheTiming {
            load_hit: 1,
            load_miss: 4,
            store_hit: 1,
            store_miss: 4,
            write_back: 2,
            invalidation_send: 1,
            invalidation_apply: 1,
        }
    }
}

impl Default for CacheTiming {
    fn default() -> (t: Self)
        ensures
            t == CacheTiming::default_spec(),
    {
        CacheTiming {
            load_hit: 1,
            load_miss: 4,
            store_hit: 1,
            store_miss: 4,
            write_back: 2,
            invalidation_send: 1,
            invalidation_apply: 1,
        }
    }
}

struct CacheLine {
    base_addr: usize,
    data: Vec<u8>,
    dirty: bool,
    last_used: usize,
}

/// A write-back, write-allocate, LRU set-associative cache in front of `M`.
///
/// Slot `set * ways + way` holds the line of way `way` in set `set`.
pub struct SetAssociativeCache<M: MemoryDevice> {
    line_size: usize,
    num_sets: usize,
    ways: usize,
    slots: Vec<Option<CacheLine>>,
    use_counter: usize,
    backing: M,
    timed: bool,
    timing: CacheTiming,
    notify_upper: bool,
    outgoing: Vec<usize>,
    pending: Vec<usize>,
}

impl<M: MemoryDevice> SetAssociativeCache<M> {
    pub closed spec fn line_len(&self) -> int {
        self.line_size as int
    }

    pub closed spec fn set_count(&self) -> int {
        self.num_sets as int
    }

    pub closed spec fn way_count(&self) -> int {
        self.ways as int
    }

    pub closed spec fn is_timed(&self) -> bool {
        self.timed
    }

    pub closed spec fn timing_spec(&self) -> CacheTiming {
        self.timing
    }

    /// Whether evictions are reported to the level above.
    pub closed spec fn notifies(&self) -> bool {
        self.notify_upper
    }

    /// Whether every way of set `set` holds a line.
    pub closed spec fn set_full_at(&self, set: int) -> bool {
        forall|v: int| 0 <= v < self.ways ==> #[trigger] self.some_line(set * self.ways + v)
    }

    /// Whether every way of the set of the line of `a` holds a line, so that
    /// a miss at `a` evicts one.
    pub open spec fn set_full(&self, a: int) -> bool {
        self.set_full_at(self.set_of(self.base_of(a)))
    }

    /// The lines this level has evicted and not yet reported to the level
    /// above.
    pub closed spec fn reported_evictions(&self) -> Seq<usize> {
        self.outgoing@
    }

    /// Whether an access at `a` misses with nothing to catch up on first: no
    /// invalidation is queued here or below, and the line of `a` is not
    /// resident.
    pub open spec fn ready_miss(&self, a: int) -> bool {
        &&& self.pending_invalidations().len() == 0
        &&& self.backing_spec().outgoing().len() == 0
        &&& !self.resident(self.base_of(a))
    }

    /// What a miss at `a` that turned `before` into `after` did to the
    /// lines: the line of `a` became resident; when the set was full and
    /// evictions are reported, exactly one line that was resident left and
    /// its base was queued for the level above; otherwise nothing was
    /// queued.
    pub open spec fn miss_evicts(before: Self, after: Self, a: int) -> bool {
        &&& after.resident(before.base_of(a))
        &&& !(before.notifies() && before.set_full(a)) ==> after.reported_evictions()
            == before.reported_evictions()
        &&& before.notifies() && before.set_full(a) ==> {
            &&& after.reported_evictions().len() == before.reported_evictions().len() + 1
            &&& after.reported_evictions().drop_last() == before.reported_evictions()
            &&& before.resident(after.reported_evictions().last() as int)
            &&& !after.resident(after.reported_evictions().last() as int)
        }
    }

    /// Under a coherent cache, an address whose line is not resident reads
    /// as the level below has it: a line written back on eviction is found
    /// there.
    pub proof fn lemma_view_below(&self, a: int)
        requires
            self.coherent(),
            0 <= a < self.view().len(),
            !self.resident(self.base_of(a)),
        ensures
            self.view()[a] == self.backing_spec().view()[a],
    {
    }

    /// Whether an access at `a` hits with nothing to catch up on first: no
    /// invalidation is queued here or below, and the line of `a` is resident.
    pub open spec fn ready_hit(&self, a: int) -> bool {
        &&& self.pending_invalidations().len() == 0
        &&& self.backing_spec().outgoing().len() == 0
        &&& self.resident(self.base_of(a))
    }

    /// Lines that the level below evicted and that this level has still to drop.
    pub closed spec fn pending_invalidations(&self) -> Seq<usize> {
        self.pending@
    }

    pub closed spec fn backing_spec(&self) -> M {
        self.backing
    }

    /// First address of the line that holds `a`.
    pub open spec fn base_of(&self, a: int) -> int {
        (a / self.line_len()) * self.line_len()
    }

    /// Set that the line starting at `b` maps to.
    pub open spec fn set_of(&self, b: int) -> int {
        (b / self.line_len()) % self.set_count()
    }

    spec fn some_line(&self, i: int) -> bool {
        0 <= i < self.slots@.len() && self.slots@[i] is Some
    }

    spec fn line(&self, i: int) -> CacheLine {
        self.slots@[i]->0
    }

    spec fn holds(&self, i: int, b: int) -> bool {
        self.some_line(i) && self.line(i).base_addr == b
    }

    /// Whether the line starting at `b` is resident in this level.
    pub closed spec fn resident(&self, b: int) -> bool {
        exists|i: int| self.holds(i, b)
    }

    spec fn slot_of(&self, b: int) -> int {
        choose|i: int| self.holds(i, b)
    }

    /// Whether way `v` of set `set` is the one a miss in that set refills:
    /// the first empty way, or, when every way holds a line, the way used
    /// least recently (the first of those used equally long ago).
    spec fn is_victim_way(&self, set: int, v: int) -> bool {
        let lo = set * self.way_count();
        &&& 0 <= v < self.way_count()
        &&& if self.set_full_at(set) {
            &&& forall|u: int|
                0 <= u < self.way_count() ==> self.line(lo + v).last_used <= #[trigger] self.line(lo + u).last_used
            &&& forall|u: int| 0 <= u < v ==> self.line(lo + v).last_used < #[trigger] self.line(lo + u).last_used
        } else {
            &&& !self.some_line(lo + v)
            &&& forall|u: int| 0 <= u < v ==> #[trigger] self.some_line(lo + u)
        }
    }

    /// The way of set `set` that a miss in that set refills.
    spec fn victim_way(&self, set: int) -> int {
        choose|v: int| self.is_victim_way(set, v)
    }

    /// A set has one way that a miss refills.
    proof fn lemma_victim_unique(&self, set: int, v1: int, v2: int)
        requires
            self.is_victim_way(set, v1),
            self.is_victim_way(set, v2),
        ensures
            v1 == v2,
    {
        let lo = set * self.way_count();
        if v1 < v2 {
            if self.set_full_at(set) {
                assert(self.line(lo + v2).last_used < self.line(lo + v1).last_used);
                assert(self.line(lo + v1).last_used <= self.line(lo + v2).last_used);
            } else {
                assert(self.some_line(lo + v1));
            }
        } else if v2 < v1 {
            if self.set_full_at(set) {
                assert(self.line(lo + v1).last_used < self.line(lo + v2).last_used);
                assert(self.line(lo + v2).last_used <= self.line(lo + v1).last_used);
            } else {
                assert(self.some_line(lo + v2));
            }
        }
    }

    /// The line that a miss at `a` evicts: none where the set of `a` has an
    /// empty way, else the line of that set used least recently.
    pub closed spec fn victim_base(&self, a: int) -> Option<int> {
        let set = self.set_of(self.base_of(a));
        if self.set_full_at(set) {
            Some(self.line(set * self.way_count() + self.victim_way(set)).base_addr as int)
        } else {
            None
        }
    }

    /// When the resident line that starts at `b` was last used, counted in
    /// accesses.
    pub closed spec fn last_use(&self, b: int) -> int {
        self.line(self.slot_of(b)).last_used as int
    }

    /// The line that a miss evicts is one of its set used least recently:
    /// every line resident in the same set was used no earlier.
    pub proof fn lemma_victim_least_recent(&self, a: int, b: int)
        requires
            self.wf(),
            0 <= a,
            self.victim_base(a) is Some,
            self.resident(b),
            self.set_of(b) == self.set_of(self.base_of(a)),
        ensures
            self.resident(self.victim_base(a)->0),
            self.set_of(self.victim_base(a)->0) == self.set_of(self.base_of(a)),
            self.last_use(self.victim_base(a)->0) <= self.last_use(b),
    {
        let set = self.set_of(self.base_of(a));
        let ways = self.way_count();
        let v = self.victim_way(set);
        assert(0 <= set < self.set_count()) by {
            lemma_base_of_props(a, self.line_len());
            assert(self.base_of(a) / self.line_len() >= 0) by (nonlinear_arith)
                requires
                    self.base_of(a) >= 0,
                    self.line_len() > 0,
            ;
        }
        self.lemma_victim_exists(set);
        let vs = set * ways + v;
        lemma_slot_index(set, v, ways, self.set_count());
        assert(self.some_line(vs));
        let vb = self.line(vs).base_addr as int;
        assert(self.holds(vs, vb));
        self.lemma_slot_of(vs, vb);
        let j = self.slot_of(b);
        assert(self.holds(j, b));
        assert(self.line_wf(j));
        assert(self.line_wf(vs));
        lemma_slot_in_set(j, set, ways);
        let u = j - set * ways;
        assert(self.line(set * ways + u).last_used == self.line(j).last_used);
    }

    /// Among the first `k` ways from slot `lo`, one used least recently
    /// (the first of those used equally long ago).
    proof fn lemma_lru_prefix(&self, lo: int, k: int) -> (best: int)
        requires
            1 <= k,
        ensures
            0 <= best < k,
            forall|u: int| 0 <= u < k ==> self.line(lo + best).last_used <= #[trigger] self.line(lo + u).last_used,
            forall|u: int| 0 <= u < best ==> self.line(lo + best).last_used < #[trigger] self.line(lo + u).last_used,
        decreases k,
    {
        if k == 1 {
            0
        } else {
            let b = self.lemma_lru_prefix(lo, k - 1);
            if self.line(lo + (k - 1)).last_used < self.line(lo + b).last_used {
                k - 1
            } else {
                b
            }
        }
    }

    /// The first empty way at or after way `i`, below way `k`, from slot `lo`.
    proof fn lemma_first_empty(&self, lo: int, i: int, k: int) -> (v: int)
        requires
            0 <= i <= k,
            forall|u: int| 0 <= u < i ==> #[trigger] self.some_line(lo + u),
            exists|u: int| i <= u < k && !#[trigger] self.some_line(lo + u),
        ensures
            i <= v < k,
            !self.some_line(lo + v),
            forall|u: int| 0 <= u < v ==> #[trigger] self.some_line(lo + u),
        decreases k - i,
    {
        if !self.some_line(lo + i) {
            i
        } else {
            assert forall|u: int| 0 <= u < i + 1 implies #[trigger] self.some_line(lo + u) by {
                if u == i {
                    assert(self.some_line(lo + i));
                }
            }
            self.lemma_first_empty(lo, i + 1, k)
        }
    }

    /// Two caches with the same lines refill the same way of a set.
    proof fn lemma_victim_same_lines(s1: Self, s2: Self, set: int)
        requires
            s1.shape_wf(),
            s2.shape_wf(),
            s1.slots@ == s2.slots@,
            s1.ways == s2.ways,
            s1.num_sets == s2.num_sets,
            0 <= set < s1.set_count(),
        ensures
            s1.victim_way(set) == s2.victim_way(set),
            s1.set_full_at(set) == s2.set_full_at(set),
    {
        let ways = s1.way_count();
        let lo = set * ways;
        s1.lemma_victim_exists(set);
        let v = s1.victim_way(set);
        if s1.set_full_at(set) {
            assert forall|u: int| 0 <= u < s2.ways implies #[trigger] s2.some_line(set * s2.ways + u) by {
                assert(s1.some_line(set * s1.ways + u));
            }
        }
        if s2.set_full_at(set) {
            assert forall|u: int| 0 <= u < s1.ways implies #[trigger] s1.some_line(set * s1.ways + u) by {
                assert(s2.some_line(set * s2.ways + u));
            }
        }
        assert(s1.set_full_at(set) == s2.set_full_at(set));
        if s1.set_full_at(set) {
            assert forall|u: int| 0 <= u < ways implies s2.line(lo + v).last_used <= #[trigger] s2.line(lo + u).last_used by {
                assert(s1.line(lo + u) == s2.line(lo + u));
                assert(s1.line(lo + v) == s2.line(lo + v));
            }
            assert forall|u: int| 0 <= u < v implies s2.line(lo + v).last_used < #[trigger] s2.line(lo + u).last_used by {
                assert(s1.line(lo + u) == s2.line(lo + u));
                assert(s1.line(lo + v) == s2.line(lo + v));
            }
        } else {
            assert forall|u: int| 0 <= u < v implies #[trigger] s2.some_line(lo + u) by {
                assert(s1.some_line(lo + u));
            }
            assert(!s2.some_line(lo + v));
        }
        assert(s2.is_victim_way(set, v));
        s2.lemma_victim_exists(set);
        s2.lemma_victim_unique(set, v, s2.victim_way(set));
    }

    /// Every set has a way that a miss refills.
    proof fn lemma_victim_exists(&self, set: int)
        requires
            self.shape_wf(),
            0 <= set < self.set_count(),
        ensures
            self.is_victim_way(set, self.victim_way(set)),
    {
        let ways = self.way_count();
        let lo = set * ways;
        if self.set_full_at(set) {
            let best = self.lemma_lru_prefix(lo, ways);
            assert(self.is_victim_way(set, best));
        } else {
            let w = choose|v: int| 0 <= v < ways && !#[trigger] self.some_line(set * self.ways + v);
            assert(!self.some_line(lo + w));
            let v = self.lemma_first_empty(lo, 0, ways);
            assert(self.is_victim_way(set, v));
        }
    }

    /// Cycles that refilling set `set` on a miss takes when the level below
    /// costs `c.0` per byte loaded and `c.1` per byte stored: writing back a
    /// dirty victim and reporting its eviction, reading the new line, and the
    /// miss itself when the access is charged.
    spec fn refill_cost(&self, set: int, c: (u64, u64), store: bool, charge_access: bool) -> int {
        let vs = set * self.way_count() + self.victim_way(set);
        let evict: int = if self.set_full_at(set) {
            (if self.line(vs).dirty {
                self.line_len() * c.1 + (if self.timed { self.timing.write_back as int } else { 0 })
            } else {
                0
            }) + (if self.notify_upper && self.timed { self.timing.invalidation_send as int } else { 0 })
        } else {
            0
        };
        evict + self.line_len() * c.0 + (if charge_access && self.timed {
            if store { self.timing.store_miss as int } else { self.timing.load_miss as int }
        } else {
            0
        })
    }

    /// Cycles that a miss at `a` takes when the level below costs `c.0` per
    /// byte loaded and `c.1` per byte stored: writing back the line it
    /// evicts if that line is dirty, reporting the eviction where evictions
    /// are reported, reading the line of `a`, and the miss itself.
    pub open spec fn miss_cost(&self, a: int, c: (u64, u64), store: bool) -> int {
        let t = self.timing_spec();
        let evict: int = match self.victim_base(a) {
            Some(v) => (if self.dirty_line(v) {
                self.line_len() * c.1 + (if self.is_timed() { t.write_back as int } else { 0 })
            } else {
                0
            }) + (if self.notifies() && self.is_timed() { t.invalidation_send as int } else { 0 }),
            None => 0,
        };
        evict + self.line_len() * c.0 + (if self.is_timed() {
            if store { t.store_miss as int } else { t.load_miss as int }
        } else {
            0
        })
    }

    /// What the level below holds once a miss at `a` is done: the line it
    /// evicts written back over it if that line is dirty, else as it was.
    pub open spec fn backing_after_miss(&self, a: int) -> Seq<u8> {
        match self.victim_base(a) {
            Some(v) => if self.dirty_line(v) {
                overwrite(self.backing_spec().view(), v, self.view().subrange(v, v + self.line_len()))
            } else {
                self.backing_spec().view()
            },
            None => self.backing_spec().view(),
        }
    }

    proof fn lemma_miss_cost(&self, a: int, c: (u64, u64), store: bool)
        requires
            self.state_wf(),
            0 <= a,
        ensures
            self.miss_cost(a, c, store) == self.refill_cost(self.set_of(self.base_of(a)), c, store, true),
            self.backing_after_miss(a) == self.refill_backing(self.set_of(self.base_of(a))),
    {
        let set = self.set_of(self.base_of(a));
        lemma_base_of_props(a, self.line_len());
        assert(self.base_of(a) / self.line_len() >= 0) by (nonlinear_arith)
            requires
                self.base_of(a) >= 0,
                self.line_len() > 0,
        ;
        assert(0 <= set < self.set_count());
        if self.set_full_at(set) {
            self.lemma_victim_exists(set);
            let v = self.victim_way(set);
            let vs = set * self.way_count() + v;
            lemma_slot_index(set, v, self.way_count(), self.set_count());
            assert(self.some_line(set * self.ways + v));
            let vb = self.line(vs).base_addr as int;
            assert(self.holds(vs, vb));
            self.lemma_slot_of(vs, vb);
            assert(self.dirty_line(vb) == self.line(vs).dirty);
            self.lemma_view_of_line(vs);
        }
    }

    /// What the level below holds once a miss has refilled set `set`: the
    /// victim written back over it if that line is dirty, else as it was.
    spec fn refill_backing(&self, set: int) -> Seq<u8> {
        let vs = set * self.way_count() + self.victim_way(set);
        if self.set_full_at(set) && self.line(vs).dirty {
            overwrite(self.backing.view(), self.line(vs).base_addr as int, self.line(vs).data@)
        } else {
            self.backing.view()
        }
    }

    /// Whether the resident line that starts at `b` has been written since it was filled.
    pub closed spec fn dirty_line(&self, b: int) -> bool {
        self.resident(b) && self.line(self.slot_of(b)).dirty
    }

    spec fn byte_at(&self, a: int) -> u8 {
        let b = self.base_of(a);
        if self.resident(b) {
            self.line(self.slot_of(b)).data@[a - b]
        } else {
            self.backing.view()[a]
        }
    }

    spec fn line_wf(&self, i: int) -> bool {
        let l = self.line(i);
        &&& l.data@.len() == self.line_len()
        &&& (l.base_addr as int) % self.line_len() == 0
        &&& self.set_of(l.base_addr as int) == i / self.way_count()
        &&& forall|k: int|
            0 <= k < self.line_len() ==> #[trigger] self.backing.accessible(l.base_addr + k)
    }

    spec fn line_matches(&self, i: int) -> bool {
        let l = self.line(i);
        forall|k: int|
            0 <= k < self.line_len() ==> #[trigger] l.data@[k] == self.backing.view()[l.base_addr
                + k]
    }

    spec fn shape_wf(&self) -> bool {
        &&& self.line_size > 0
        &&& self.num_sets > 0
        &&& self.ways > 0
        &&& self.slots@.len() == self.num_sets * self.ways
        &&& self.num_sets * self.ways <= usize::MAX
    }

    spec fn lines_wf(&self) -> bool {
        &&& forall|i: int| #[trigger] self.some_line(i) ==> self.line_wf(i)
        &&& forall|i: int, j: int|
            #![trigger self.some_line(i), self.some_line(j)]
            self.some_line(i) && self.some_line(j) && self.line(i).base_addr == self.line(
                j,
            ).base_addr ==> i == j
    }

    spec fn backing_exclusive(&self) -> bool {
        forall|a: int| self.backing.accessible(a) ==> #[trigger] self.backing.exclusive(a)
    }

    spec fn clean_lines_match(&self) -> bool {
        forall|i: int| #[trigger] self.some_line(i) && !self.line(i).dirty ==> self.line_matches(i)
    }

    /// Same configuration and same backing accessibility as `other`.
    spec fn same_frame(&self, other: &Self) -> bool {
        &&& self.line_size == other.line_size
        &&& self.num_sets == other.num_sets
        &&& self.ways == other.ways
        &&& self.timed == other.timed
        &&& self.timing == other.timing
        &&& self.notify_upper == other.notify_upper
        &&& forall|b: int| #[trigger]
            self.backing.accessible(b) == other.backing.accessible(b)
        &&& forall|b: int| other.backing.exclusive(b) ==> #[trigger] self.backing.exclusive(b)
        &&& self.backing.view().len() == other.backing.view().len()
    }


    /// Lines stay well formed when the slots and the backing's accessible
    /// addresses are unchanged.
    proof fn lemma_lines_frame(s1: Self, s2: Self)
        requires
            s1.lines_wf(),
            s2.slots@ == s1.slots@,
            s2.line_size == s1.line_size,
            s2.num_sets == s1.num_sets,
            s2.ways == s1.ways,
            forall|b: int| #[trigger] s2.backing.accessible(b) == s1.backing.accessible(b),
        ensures
            s2.lines_wf(),
    {
        assert forall|i: int| #[trigger] s2.some_line(i) implies s2.line_wf(i) by {
            assert(s1.some_line(i));
            assert(s1.line_wf(i));
        }
        assert forall|i: int, j: int|
            #![trigger s2.some_line(i), s2.some_line(j)]
            s2.some_line(i) && s2.some_line(j) && s2.line(i).base_addr == s2.line(
                j,
            ).base_addr implies i == j by {
            assert(s1.some_line(i) && s1.some_line(j));
        }
    }

    /// Clean lines keep matching when the slots and the backing's view are unchanged.
    proof fn lemma_clean_frame(s1: Self, s2: Self)
        requires
            s1.clean_lines_match(),
            s2.slots@ == s1.slots@,
            s2.line_size == s1.line_size,
            s2.backing.view() == s1.backing.view(),
        ensures
            s2.clean_lines_match(),
    {
        assert forall|i: int| #[trigger] s2.some_line(i) && !s2.line(i).dirty implies s2.line_matches(i) by {
            assert(s1.some_line(i));
            assert(s1.line_matches(i));
            assert(s2.line(i) == s1.line(i));
            assert forall|k: int| 0 <= k < s2.line_len() implies #[trigger] s2.line(i).data@[k]
                == s2.backing.view()[s2.line(i).base_addr + k] by {
                assert(s1.line(i).data@[k] == s1.backing.view()[s1.line(i).base_addr + k]);
            }
        }
    }

    /// Emptying a slot keeps the remaining lines well formed.
    proof fn lemma_lines_take(s1: Self, s2: Self, i: int)
        requires
            s1.lines_wf(),
            0 <= i < s1.slots@.len(),
            s2.slots@ == s1.slots@.update(i, None),
            s2.line_size == s1.line_size,
            s2.num_sets == s1.num_sets,
            s2.ways == s1.ways,
            forall|b: int| #[trigger] s2.backing.accessible(b) == s1.backing.accessible(b),
        ensures
            s2.lines_wf(),
            forall|j: int| #[trigger] s2.some_line(j) ==> s1.some_line(j) && s2.line(j) == s1.line(j) && j != i,
    {
        assert forall|j: int| #[trigger] s2.some_line(j) implies s1.some_line(j) && s2.line(j) == s1.line(j) && j != i by {
            if j == i {
                assert(s2.slots@[j] is None);
            } else {
                assert(s2.slots@[j] == s1.slots@[j]);
            }
        }
        assert forall|j: int| #[trigger] s2.some_line(j) implies s2.line_wf(j) by {
            assert(s1.some_line(j));
            assert(s1.line_wf(j));
        }
        assert forall|j: int, k: int|
            #![trigger s2.some_line(j), s2.some_line(k)]
            s2.some_line(j) && s2.some_line(k) && s2.line(j).base_addr == s2.line(
                k,
            ).base_addr implies j == k by {
            assert(s1.some_line(j) && s1.some_line(k));
        }
    }

    /// A cache's accessible addresses depend only on its line size and on the level below.
    proof fn lemma_accessible_frame(s1: Self, s2: Self)
        requires
            s2.line_size == s1.line_size,
            forall|b: int| #[trigger] s2.backing.accessible(b) == s1.backing.accessible(b),
        ensures
            forall|b: int| #[trigger] s2.accessible(b) == s1.accessible(b),
    {
        assert forall|b: int| #[trigger] s2.accessible(b) == s1.accessible(b) by {
            if s1.accessible(b) {
                assert forall|k: int| 0 <= k < s2.line_len() implies #[trigger] s2.backing.accessible(s2.base_of(b) + k) by {
                    assert(s1.backing.accessible(s1.base_of(b) + k));
                }
            }
            if s2.accessible(b) {
                assert forall|k: int| 0 <= k < s1.line_len() implies #[trigger] s1.backing.accessible(s1.base_of(b) + k) by {
                    assert(s2.backing.accessible(s2.base_of(b) + k));
                }
            }
        }
    }


    proof fn lemma_frame_trans(s1: Self, s2: Self, s3: Self)
        requires
            s2.same_frame(&s1),
            s3.same_frame(&s2),
        ensures
            s3.same_frame(&s1),
    {
        assert forall|b: int| #[trigger] s3.backing.accessible(b) == s1.backing.accessible(b) by {
            assert(s2.backing.accessible(b) == s1.backing.accessible(b));
        }
        assert forall|b: int| s1.backing.exclusive(b) implies #[trigger] s3.backing.exclusive(b) by {
            assert(s2.backing.exclusive(b));
        }
    }


    proof fn lemma_resident_frame(s1: Self, s2: Self)
        requires
            s2.slots@ == s1.slots@,
        ensures
            forall|b: int| #[trigger] s2.resident(b) == s1.resident(b),
    {
        assert forall|b: int| #[trigger] s2.resident(b) == s1.resident(b) by {
            if s1.resident(b) {
                let j = s1.slot_of(b);
                assert(s2.holds(j, b));
            }
            if s2.resident(b) {
                let j = s2.slot_of(b);
                assert(s1.holds(j, b));
            }
        }
    }


    /// Two states that differ only in bookkeeping (timing, counters,
    /// notification queues) are equally well formed and show the same bytes.
    proof fn lemma_bookkeeping_frame(s1: Self, s2: Self)
        requires
            s2.slots@ == s1.slots@,
            s2.backing == s1.backing,
            s2.line_size == s1.line_size,
            s2.num_sets == s1.num_sets,
            s2.ways == s1.ways,
        ensures
            s2.wf() == s1.wf(),
            s2.coherent() == s1.coherent(),
            s1.wf() ==> s2.view() == s1.view(),
    {
        if s1.lines_wf() {
            Self::lemma_lines_frame(s1, s2);
        }
        if s2.lines_wf() {
            Self::lemma_lines_frame(s2, s1);
        }
        if s1.clean_lines_match() {
            Self::lemma_clean_frame(s1, s2);
        }
        if s2.clean_lines_match() {
            Self::lemma_clean_frame(s2, s1);
        }
        Self::lemma_resident_frame(s1, s2);
        if s1.wf() {
            assert forall|a: int| 0 <= a < s1.backing.view().len() implies #[trigger] s2.byte_at(a) == s1.byte_at(a) by {
                Self::lemma_same_bytes(s1, s2, a);
            }
            assert(s2.view() =~= s1.view());
        }
    }

    proof fn lemma_slot_of(&self, i: int, b: int)
        requires
            self.lines_wf(),
            self.holds(i, b),
        ensures
            self.resident(b),
            self.slot_of(b) == i,
    {
        assert(self.holds(i, b));
        let j = self.slot_of(b);
        assert(self.holds(j, b));
        assert(self.some_line(i) && self.some_line(j));
    }

    /// The byte seen at `a` through the line held in slot `i`.
    /// The view over the line in slot `i` is that line's data.
    proof fn lemma_view_of_line(&self, i: int)
        requires
            self.state_wf(),
            self.some_line(i),
        ensures
            self.line(i).base_addr + self.line_len() <= self.view().len(),
            self.view().subrange(
                self.line(i).base_addr as int,
                self.line(i).base_addr + self.line_len(),
            ) == self.line(i).data@,
    {
        let b = self.line(i).base_addr as int;
        let ls = self.line_len();
        assert(self.line_wf(i));
        assert(self.backing.accessible(b + (ls - 1)));
        self.backing.lemma_accessible_in_range(b + (ls - 1));
        assert forall|k: int| 0 <= k < ls implies #[trigger] self.view().subrange(b, b + ls)[k] == self.line(i).data@[k] by {
            self.lemma_byte_at_hit(i, b + k);
        }
        assert(self.view().subrange(b, b + ls) =~= self.line(i).data@);
    }

    proof fn lemma_byte_at_hit(&self, i: int, a: int)
        requires
            self.shape_wf(),
            self.lines_wf(),
            self.some_line(i),
            0 <= a,
            self.line(i).base_addr <= a < self.line(i).base_addr + self.line_len(),
        ensures
            self.base_of(a) == self.line(i).base_addr,
            self.byte_at(a) == self.line(i).data@[a - self.line(i).base_addr],
    {
        assert(self.line_wf(i));
        lemma_base_of(a, self.line(i).base_addr as int, self.line_len());
        self.lemma_slot_of(i, self.line(i).base_addr as int);
    }
}

impl<M: MemoryDevice> SetAssociativeCache<M> {
    /// Whether the line held in slot `j` covers address `a`.
    spec fn covers(&self, j: int, a: int) -> bool {
        self.some_line(j) && self.line(j).base_addr <= a < self.line(j).base_addr + self.line_len()
    }

    /// What a load of `a` observes, in terms of the slot that covers it.
    proof fn lemma_byte_at_char(&self, a: int)
        requires
            self.shape_wf(),
            self.lines_wf(),
            0 <= a,
        ensures
            forall|j: int| #[trigger]
                self.covers(j, a) ==> self.byte_at(a) == self.line(j).data@[a
                    - self.line(j).base_addr],
            (forall|j: int| !#[trigger] self.covers(j, a)) ==> self.byte_at(a)
                == self.backing.view()[a],
    {
        assert forall|j: int| #[trigger]
            self.covers(j, a) implies self.byte_at(a) == self.line(j).data@[a
            - self.line(j).base_addr] by {
            self.lemma_byte_at_hit(j, a);
        }
        if (forall|j: int| !#[trigger] self.covers(j, a)) {
            let b = self.base_of(a);
            if self.resident(b) {
                let j = self.slot_of(b);
                assert(self.holds(j, b));
                assert(self.line_wf(j));
                lemma_base_of_props(a, self.line_len());
                assert(self.covers(j, a));
            }
        }
    }

    /// Two states whose slots agree and whose backing views agree outside
    /// the lines held by slots agree on every byte.
    proof fn lemma_same_bytes(s1: Self, s2: Self, a: int)
        requires
            s1.shape_wf(),
            s1.lines_wf(),
            s2.shape_wf(),
            s2.lines_wf(),
            s1.line_size == s2.line_size,
            0 <= a,
            forall|j: int| #[trigger] s2.covers(j, a) <==> s1.covers(j, a),
            forall|j: int| #[trigger]
                s1.covers(j, a) ==> s2.line(j).data@[a - s2.line(j).base_addr] == s1.line(
                    j,
                ).data@[a - s1.line(j).base_addr],
            (forall|j: int| !#[trigger] s1.covers(j, a)) ==> s2.backing.view()[a]
                == s1.backing.view()[a],
        ensures
            s2.byte_at(a) == s1.byte_at(a),
    {
        s1.lemma_byte_at_char(a);
        s2.lemma_byte_at_char(a);
        if exists|j: int| #[trigger] s1.covers(j, a) {
            let j = choose|j: int| #[trigger] s1.covers(j, a);
            assert(s2.covers(j, a));
        }
    }

    fn line_base(&self, addr: usize) -> (b: usize)
        requires
            self.shape_wf(),
        ensures
            b == self.base_of(addr as int),
    {
        proof {
            lemma_base_of_props(addr as int, self.line_len());
        }
        (addr / self.line_size) * self.line_size
    }

    fn set_index(&self, addr: usize) -> (s: usize)
        requires
            self.shape_wf(),
        ensures
            s == self.set_of(self.base_of(addr as int)),
            s < self.num_sets,
    {
        proof {
            lemma_base_of_props(addr as int, self.line_len());
        }
        (addr / self.line_size) % self.num_sets
    }

    fn next_use_counter(&mut self) -> (v: usize)
        ensures
            v == old(self).use_counter,
            *final(self) == (Self { use_counter: final(self).use_counter, ..*old(self) }),
    {
        let v = self.use_counter;
        self.use_counter = self.use_counter.saturating_add(1);
        v
    }

    fn charge(&self, n: u64, clock: &mut Clock)
        ensures
            final(clock)@ == saturating_tick(old(clock)@, if self.timed { n } else { 0 }),
    {
        if self.timed {
            clock.advance(n);
        }
    }

    fn take_slot(&mut self, idx: usize) -> (r: Option<CacheLine>)
        requires
            idx < old(self).slots@.len(),
        ensures
            r == old(self).slots@[idx as int],
            final(self).slots@ == old(self).slots@.update(idx as int, None),
            *final(self) == (Self { slots: final(self).slots, ..*old(self) }),
    {
        let mut tmp: Option<CacheLine> = None;
        self.slots.set_and_swap(idx, &mut tmp);
        tmp
    }

    /// Slot of the way in set `set_idx` that holds the line `base`, if any.
    fn search(&self, set_idx: usize, base: usize) -> (r: Option<usize>)
        requires
            self.shape_wf(),
            self.lines_wf(),
            set_idx == self.set_of(base as int),
            set_idx < self.num_sets,
        ensures
            match r {
                Some(i) => self.holds(i as int, base as int),
                None => !self.resident(base as int),
            },
    {
        let mut w: usize = 0;
        while w < self.ways
            invariant
                self.shape_wf(),
                self.lines_wf(),
                set_idx < self.num_sets,
                w <= self.ways,
                forall|v: int|
                    0 <= v < w ==> !#[trigger] self.holds(set_idx * self.ways + v, base as int),
            decreases self.ways - w,
        {
            proof {
                lemma_slot_index(set_idx as int, w as int, self.ways as int, self.num_sets as int);
            }
            let idx = set_idx * self.ways + w;
            let found = match &self.slots[idx] {
                Some(l) => l.base_addr == base,
                None => false,
            };
            if found {
                return Some(idx);
            }
            w = w + 1;
        }
        proof {
            if self.resident(base as int) {
                let i = self.slot_of(base as int);
                assert(self.holds(i, base as int));
                assert(self.line_wf(i));
                let v = i % (self.ways as int);
                lemma_fundamental_div_mod(i, self.ways as int);
                assert(i == set_idx * self.ways + v) by (nonlinear_arith)
                    requires
                        i == self.ways * (i / (self.ways as int)) + v,
                        i / (self.ways as int) == set_idx,
                ;
                assert(!self.holds(set_idx * self.ways + v, base as int));
            }
        }
        None
    }

    /// The slot to refill in set `set_idx`: an empty way, or else the least recently used.
    fn find_victim(&self, set_idx: usize) -> (idx: usize)
        requires
            self.shape_wf(),
            set_idx < self.num_sets,
        ensures
            idx < self.slots@.len(),
            (idx as int) / self.way_count() == set_idx,
            self.some_line(idx as int) ==> self.set_full_at(set_idx as int),
            idx == set_idx * self.way_count() + self.victim_way(set_idx as int),
    {
        let mut lru_way: usize = 0;
        let mut lru_used: usize = usize::MAX;
        let mut w: usize = 0;
        let ghost lo = set_idx * self.way_count();
        while w < self.ways
            invariant
                self.shape_wf(),
                set_idx < self.num_sets,
                w <= self.ways,
                lru_way < self.ways,
                lo == set_idx * self.way_count(),
                forall|v: int| 0 <= v < w ==> #[trigger] self.some_line(set_idx * self.ways + v),
                lru_way < w || (lru_way == 0 && lru_used == usize::MAX),
                lru_way < w ==> self.line(lo + lru_way).last_used == lru_used,
                forall|u: int| 0 <= u < w ==> lru_used <= #[trigger] self.line(lo + u).last_used,
                forall|u: int| 0 <= u < lru_way ==> lru_used < #[trigger] self.line(lo + u).last_used,
            decreases self.ways - w,
        {
            proof {
                lemma_slot_index(set_idx as int, w as int, self.ways as int, self.num_sets as int);
            }
            let idx = set_idx * self.ways + w;
            match &self.slots[idx] {
                None => {
                    proof {
                        assert(!self.some_line(set_idx * self.ways + w));
                        assert(!self.set_full_at(set_idx as int));
                        assert(self.is_victim_way(set_idx as int, w as int));
                        self.lemma_victim_exists(set_idx as int);
                        self.lemma_victim_unique(set_idx as int, w as int, self.victim_way(set_idx as int));
                    }
                    return idx;
                },
                Some(line) => {
                    if line.last_used < lru_used {
                        lru_used = line.last_used;
                        lru_way = w;
                    }
                },
            }
            w = w + 1;
        }
        proof {
            lemma_slot_index(set_idx as int, lru_way as int, self.ways as int, self.num_sets as int);
            assert(self.set_full_at(set_idx as int));
            if lru_way == 0 && lru_used == usize::MAX {
                assert(self.line(lo + 0).last_used <= usize::MAX);
            }
            assert(self.is_victim_way(set_idx as int, lru_way as int));
            self.lemma_victim_exists(set_idx as int);
            self.lemma_victim_unique(set_idx as int, lru_way as int, self.victim_way(set_idx as int));
        }
        set_idx * self.ways + lru_way
    }
}

impl<M: MemoryDevice> SetAssociativeCache<M> {
    spec fn state_wf(&self) -> bool {
        &&& self.shape_wf()
        &&& self.lines_wf()
        &&& self.backing.wf()
    }

    spec fn state_coherent(&self) -> bool {
        &&& self.backing.coherent()
        &&& self.backing_exclusive()
        &&& self.clean_lines_match()
    }

    /// Removing the line of slot `i` (after writing it back if it was dirty)
    /// leaves every byte of the view as it was.
    proof fn lemma_remove_line(s1: Self, s2: Self, i: int)
        requires
            s1.state_wf(),
            s1.state_coherent(),
            s1.some_line(i),
            s2.shape_wf(),
            s2.line_size == s1.line_size,
            s2.ways == s1.ways,
            s2.num_sets == s1.num_sets,
            s2.slots@ == s1.slots@.update(i, None),
            forall|b: int| #[trigger] s2.backing.accessible(b) == s1.backing.accessible(b),
            s2.backing.view().len() == s1.backing.view().len(),
            s2.backing.view() == (if s1.line(i).dirty {
                overwrite(s1.backing.view(), s1.line(i).base_addr as int, s1.line(i).data@)
            } else {
                s1.backing.view()
            }),
        ensures
            s2.lines_wf(),
            s2.clean_lines_match(),
            forall|a: int| 0 <= a < s1.backing.view().len() ==> #[trigger] s2.byte_at(a) == s1.byte_at(a),
    {
        let l = s1.line(i);
        let ls = s1.line_len();
        assert(s1.line_wf(i));
        assert forall|j: int| #[trigger] s2.some_line(j) implies s2.line_wf(j) by {
            assert(s1.some_line(j));
            assert(s1.line_wf(j));
        }
        assert forall|j: int, k: int|
            #![trigger s2.some_line(j), s2.some_line(k)]
            s2.some_line(j) && s2.some_line(k) && s2.line(j).base_addr == s2.line(
                k,
            ).base_addr implies j == k by {
            assert(s1.some_line(j) && s1.some_line(k));
        }
        assert forall|j: int| #[trigger] s2.some_line(j) && !s2.line(j).dirty implies s2.line_matches(
            j,
        ) by {
            assert(s1.some_line(j));
            assert(s1.line_matches(j));
            assert(s1.line_wf(j));
            assert(j != i);
            lemma_aligned_disjoint(l.base_addr as int, s1.line(j).base_addr as int, ls);
            assert forall|k: int| 0 <= k < ls implies #[trigger] s2.line(j).data@[k]
                == s2.backing.view()[s2.line(j).base_addr + k] by {
                assert(s1.line(j).data@[k] == s1.backing.view()[s1.line(j).base_addr + k]);
                assert(s1.backing.accessible(s1.line(j).base_addr + k));
                s1.backing.lemma_accessible_in_range(s1.line(j).base_addr + k);
            }
        }
        assert forall|a: int| 0 <= a < s1.backing.view().len() implies #[trigger] s2.byte_at(a)
            == s1.byte_at(a) by {
            s1.lemma_byte_at_char(a);
            s2.lemma_byte_at_char(a);
            if s1.covers(i, a) {
                assert forall|j: int| !#[trigger] s2.covers(j, a) by {
                    if s2.covers(j, a) {
                        assert(s1.covers(j, a));
                        assert(s1.line_wf(j));
                        if j != i {
                            lemma_aligned_disjoint(
                                l.base_addr as int,
                                s1.line(j).base_addr as int,
                                ls,
                            );
                        }
                    }
                }
                if !l.dirty {
                    assert(s1.line_matches(i));
                    assert(l.data@[a - l.base_addr] == s1.backing.view()[l.base_addr + (a
                        - l.base_addr)]);
                }
            } else {
                if exists|j: int| #[trigger] s1.covers(j, a) {
                    let j = choose|j: int| #[trigger] s1.covers(j, a);
                    assert(s2.covers(j, a));
                } else {
                    assert forall|j: int| !#[trigger] s2.covers(j, a) by {
                        if s2.covers(j, a) {
                            assert(s1.covers(j, a));
                        }
                    }
                }
            }
        }
    }

    /// Putting line `l` into slot `i`, where no other slot holds its base,
    /// shows `l` over the addresses it covers and leaves every other byte as it was.
    proof fn lemma_install_line(s1: Self, s2: Self, i: int, l: CacheLine)
        requires
            s1.state_wf(),
            0 <= i < s1.slots@.len(),
            s1.some_line(i) ==> s1.line(i).base_addr == l.base_addr,
            forall|j: int| j != i ==> !#[trigger] s1.holds(j, l.base_addr as int),
            s2.slots@ == s1.slots@.update(i, Some(l)),
            s2.backing == s1.backing,
            s2.line_size == s1.line_size,
            s2.ways == s1.ways,
            s2.num_sets == s1.num_sets,
            l.data@.len() == s1.line_len(),
            (l.base_addr as int) % s1.line_len() == 0,
            s1.set_of(l.base_addr as int) == i / s1.way_count(),
            forall|k: int|
                0 <= k < s1.line_len() ==> #[trigger] s1.backing.accessible(l.base_addr + k),
        ensures
            s2.state_wf(),
            forall|a: int|
                0 <= a < s1.backing.view().len() ==> #[trigger] s2.byte_at(a) == if l.base_addr
                    <= a < l.base_addr + s1.line_len() {
                    l.data@[a - l.base_addr]
                } else {
                    s1.byte_at(a)
                },
            forall|j: int| j != i ==> (#[trigger] s2.some_line(j) == s1.some_line(j)),
            forall|j: int| j != i && s1.some_line(j) ==> #[trigger] s2.line(j) == s1.line(j),
            s2.some_line(i),
            s2.line(i) == l,
    {
        let ls = s1.line_len();
        assert(s2.some_line(i));
        assert(s2.line_wf(i));
        assert forall|j: int| #[trigger] s2.some_line(j) implies s2.line_wf(j) by {
            if j != i {
                assert(s1.some_line(j));
                assert(s1.line_wf(j));
            }
        }
        assert forall|j: int, k: int|
            #![trigger s2.some_line(j), s2.some_line(k)]
            s2.some_line(j) && s2.some_line(k) && s2.line(j).base_addr == s2.line(
                k,
            ).base_addr implies j == k by {
            if j != i && k != i {
                assert(s1.some_line(j) && s1.some_line(k));
            } else if j == i && k != i {
                assert(s1.holds(k, l.base_addr as int));
            } else if j != i && k == i {
                assert(s1.holds(j, l.base_addr as int));
            }
        }
        assert forall|a: int| 0 <= a < s1.backing.view().len() implies #[trigger] s2.byte_at(a)
            == if l.base_addr <= a < l.base_addr + ls {
            l.data@[a - l.base_addr]
        } else {
            s1.byte_at(a)
        } by {
            s1.lemma_byte_at_char(a);
            s2.lemma_byte_at_char(a);
            if l.base_addr <= a < l.base_addr + ls {
                assert(s2.covers(i, a));
            } else {
                if exists|j: int| #[trigger] s1.covers(j, a) {
                    let j = choose|j: int| #[trigger] s1.covers(j, a);
                    if j == i {
                        assert(s1.line(i).base_addr == l.base_addr);
                    }
                    assert(j != i);
                    assert(s2.covers(j, a));
                } else {
                    assert forall|j: int| !#[trigger] s2.covers(j, a) by {
                        if s2.covers(j, a) && j != i {
                            assert(s1.covers(j, a));
                        }
                    }
                }
            }
        }
    }
}

impl<M: MemoryDevice> SetAssociativeCache<M> {
    /// Collects the invalidations the level below has queued for this level.
    fn drain(&mut self)
        requires
            old(self).state_wf(),
        ensures
            final(self).state_wf(),
            *final(self) == (Self {
                backing: final(self).backing,
                pending: final(self).pending,
                ..*old(self)
            }),
            final(self).same_frame(old(self)),
            final(self).backing.view() == old(self).backing.view(),
            old(self).backing.coherent() ==> final(self).backing.coherent(),
            old(self).backing_exclusive() ==> final(self).backing_exclusive(),
            forall|b: int| #[trigger]
                final(self).backing.holds_line(b) == old(self).backing.holds_line(b),
            final(self).pending@ == old(self).pending@ + old(self).backing.outgoing(),
            final(self).backing.outgoing() == Seq::<usize>::empty(),
            final(self).backing.fixed_costs() == old(self).backing.fixed_costs(),
    {
        let mut v = self.backing.take_invalidations();
        self.pending.append(&mut v);
        proof {
            Self::lemma_lines_frame(*old(self), *self);
        }
    }

    /// Copies `line` into the level below.
    fn write_back(&mut self, line: &CacheLine, clock: &mut Clock)
        requires
            old(self).state_wf(),
            line.data@.len() == old(self).line_len(),
            forall|k: int|
                0 <= k < old(self).line_len() ==> #[trigger] old(self).backing.accessible(
                    line.base_addr + k,
                ),
        ensures
            final(self).state_wf(),
            *final(self) == (Self {
                backing: final(self).backing,
                pending: final(self).pending,
                ..*old(self)
            }),
            final(self).same_frame(old(self)),
            final(clock)@ >= old(clock)@,
            final(self).backing.fixed_costs() == old(self).backing.fixed_costs(),
            old(self).backing.fixed_costs() matches Some(c) ==> final(clock)@ == tick_by(
                old(clock)@,
                old(self).line_len() * c.1,
            ),
            old(self).backing.fixed_costs() is Some && old(self).backing.outgoing().len() == 0 ==> final(self).pending@
                == old(self).pending@ && final(self).backing.outgoing().len() == 0,
            old(self).backing.coherent() && old(self).backing_exclusive() ==> {
                &&& final(self).backing.coherent()
                &&& final(self).backing_exclusive()
                &&& final(self).backing.view() == overwrite(
                    old(self).backing.view(),
                    line.base_addr as int,
                    line.data@,
                )
            },
    {
        let mut i: usize = 0;
        while i < self.line_size
            invariant
                old(self).state_wf(),
                self.state_wf(),
                *self == (Self { backing: self.backing, pending: self.pending, ..*old(self) }),
                self.same_frame(old(self)),
                line.data@.len() == self.line_len(),
                i <= self.line_size,
                clock@ >= old(clock)@,
                self.backing.fixed_costs() == old(self).backing.fixed_costs(),
                old(self).backing.fixed_costs() matches Some(c) ==> clock@ == tick_by(old(clock)@, i * c.1),
                old(self).backing.fixed_costs() is Some && old(self).backing.outgoing().len() == 0 ==> self.pending@
                    == old(self).pending@ && self.backing.outgoing().len() == 0,
                forall|k: int|
                    0 <= k < self.line_len() ==> #[trigger] self.backing.accessible(
                        line.base_addr + k,
                    ),
                old(self).backing.coherent() && old(self).backing_exclusive() ==> {
                    &&& self.backing.coherent()
                    &&& self.backing_exclusive()
                    &&& self.backing.view() == overwrite(
                        old(self).backing.view(),
                        line.base_addr as int,
                        line.data@.subrange(0, i as int),
                    )
                },
            decreases self.line_size - i,
        {
            proof {
                assert(self.backing.accessible(line.base_addr + i));
                self.backing.lemma_accessible_in_range(line.base_addr + i);
            }
            let ghost before = self.backing.view();
            let ghost c_before = clock@;
            self.backing.store_u8(line.base_addr + i, line.data[i], clock);
            proof {
                if let Some(c) = old(self).backing.fixed_costs() {
                    lemma_tick_by_twice(old(clock)@, i * c.1, c.1 as int);
                    assert(i * c.1 + c.1 == (i + 1) * c.1) by (nonlinear_arith);
                }
                Self::lemma_lines_frame(*old(self), *self);
                if old(self).backing.coherent() && old(self).backing_exclusive() {
                    assert(self.backing.view() =~= overwrite(
                        old(self).backing.view(),
                        line.base_addr as int,
                        line.data@.subrange(0, i + 1),
                    ));
                }
            }
            self.drain();
            i = i + 1;
        }
        proof {
            assert(line.data@.subrange(0, i as int) =~= line.data@);
        }
    }

    /// Reads the line starting at `base` from the level below.
    fn fill_line(&mut self, base: usize, last_used: usize, clock: &mut Clock) -> (l: CacheLine)
        requires
            old(self).state_wf(),
            forall|k: int|
                0 <= k < old(self).line_len() ==> #[trigger] old(self).backing.accessible(
                    base + k,
                ),
        ensures
            final(self).state_wf(),
            *final(self) == (Self {
                backing: final(self).backing,
                pending: final(self).pending,
                ..*old(self)
            }),
            final(self).same_frame(old(self)),
            final(clock)@ >= old(clock)@,
            l.base_addr == base,
            l.data@.len() == old(self).line_len(),
            !l.dirty,
            l.last_used == last_used,
            final(self).backing.fixed_costs() == old(self).backing.fixed_costs(),
            old(self).backing.fixed_costs() matches Some(c) ==> final(clock)@ == tick_by(
                old(clock)@,
                old(self).line_len() * c.0,
            ),
            old(self).backing.fixed_costs() is Some && old(self).backing.outgoing().len() == 0 ==> final(self).pending@
                == old(self).pending@ && final(self).backing.outgoing().len() == 0,
            old(self).backing.coherent() && old(self).backing_exclusive() ==> {
                &&& final(self).backing.coherent()
                &&& final(self).backing_exclusive()
                &&& final(self).backing.view() == old(self).backing.view()
                &&& forall|k: int|
                    0 <= k < old(self).line_len() ==> #[trigger] l.data@[k]
                        == old(self).backing.view()[base + k]
            },
    {
        let mut data: Vec<u8> = Vec::new();
        let mut i: usize = 0;
        while i < self.line_size
            invariant
                old(self).state_wf(),
                self.state_wf(),
                *self == (Self { backing: self.backing, pending: self.pending, ..*old(self) }),
                self.same_frame(old(self)),
                i <= self.line_size,
                data@.len() == i,
                clock@ >= old(clock)@,
                self.backing.fixed_costs() == old(self).backing.fixed_costs(),
                old(self).backing.fixed_costs() matches Some(c) ==> clock@ == tick_by(old(clock)@, i * c.0),
                old(self).backing.fixed_costs() is Some && old(self).backing.outgoing().len() == 0 ==> self.pending@
                    == old(self).pending@ && self.backing.outgoing().len() == 0,
                forall|k: int|
                    0 <= k < self.line_len() ==> #[trigger] self.backing.accessible(base + k),
                old(self).backing.coherent() && old(self).backing_exclusive() ==> {
                    &&& self.backing.coherent()
                    &&& self.backing_exclusive()
                    &&& self.backing.view() == old(self).backing.view()
                    &&& forall|k: int|
                        0 <= k < i ==> #[trigger] data@[k] == old(self).backing.view()[base + k]
                },
            decreases self.line_size - i,
        {
            proof {
                assert(self.backing.accessible(base + i));
                self.backing.lemma_accessible_in_range(base + i);
            }
            let byte = self.backing.load_u8(base + i, clock);
            proof {
                if let Some(c) = old(self).backing.fixed_costs() {
                    lemma_tick_by_twice(old(clock)@, i * c.0, c.0 as int);
                    assert(i * c.0 + c.0 == (i + 1) * c.0) by (nonlinear_arith);
                }
                Self::lemma_lines_frame(*old(self), *self);
            }
            data.push(byte);
            self.drain();
            i = i + 1;
        }
        CacheLine { base_addr: base, data, dirty: false, last_used }
    }
}

impl<M: MemoryDevice> SetAssociativeCache<M> {
    /// Drops the lines that the level below has evicted, writing back dirty ones.
    fn apply_pending_invalidations(&mut self, clock: &mut Clock)
        requires
            old(self).wf(),
        ensures
            final(self).wf(),
            final(self).slots@ == drop_lines(old(self).slots@, addr_set(old(self).pending@)),
            final(self).same_frame(old(self)),
            final(self).use_counter == old(self).use_counter,
            final(self).outgoing == old(self).outgoing,
            final(clock)@ >= old(clock)@,
            old(self).coherent() ==> {
                &&& final(self).coherent()
                &&& final(self).view() == old(self).view()
            },
    {
        let mut addrs: Vec<usize> = Vec::new();
        std::mem::swap(&mut addrs, &mut self.pending);
        proof {
            Self::lemma_lines_frame(*old(self), *self);
            if old(self).coherent() {
                Self::lemma_clean_frame(*old(self), *self);
            }
            assert forall|a: int| 0 <= a < self.backing.view().len() implies #[trigger] self.byte_at(a) == old(self).byte_at(a) by {
                Self::lemma_same_bytes(*old(self), *self, a);
            }
            assert(self.view() =~= old(self).view());
            assert(drop_lines(old(self).slots@, Set::empty()) =~= old(self).slots@);
            if addrs@.len() > 0 {
                lemma_addr_set_step(addrs@, 0);
            } else {
                assert(addrs@.subrange(0, 0) =~= addrs@);
            }
        }
        let mut j: usize = 0;
        while j < addrs.len()
            invariant
                self.wf(),
                addrs@ == old(self).pending@,
                self.slots@ == drop_lines(old(self).slots@, addr_set(addrs@.subrange(0, j as int))),
                self.same_frame(old(self)),
                self.use_counter == old(self).use_counter,
                self.outgoing == old(self).outgoing,
                j <= addrs@.len(),
                clock@ >= old(clock)@,
                old(self).coherent() ==> {
                    &&& self.coherent()
                    &&& self.view() == old(self).view()
                },
            decreases addrs@.len() - j,
        {
            let base = addrs[j];
            let set_idx = self.set_index(base);
            let ghost s0 = *self;
            proof {
                lemma_base_of_props(base as int, self.line_len());
                lemma_addr_set_step(addrs@, j as int);
                lemma_drop_twice(old(self).slots@, addr_set(addrs@.subrange(0, j as int)), set![base as int]);
            }
            match self.search(set_idx, base) {
                Some(idx) => {
                    let ghost s1 = *self;
                    proof {
                        assert(s1.line_wf(idx as int));
                        assert forall|k: int| 0 <= k < s1.slots@.len() implies #[trigger] s1.slots@.update(
                            idx as int,
                            None,
                        )[k] == drop_lines(s1.slots@, set![base as int])[k] by {
                            if k != idx && s1.some_line(k) && s1.line(k).base_addr == base {
                                assert(s1.some_line(idx as int) && s1.some_line(k));
                            }
                        }
                        assert(s1.slots@.update(idx as int, None) =~= drop_lines(s1.slots@, set![base as int]));
                    }
                    let taken = self.take_slot(idx);
                    proof {
                        Self::lemma_lines_take(s1, *self, idx as int);
                    }
                    match taken {
                        Some(line) => {
                            if line.dirty {
                                self.write_back(&line, clock);
                                self.charge(self.timing.write_back, clock);
                            }
                            proof {
                                if s1.coherent() {
                                    if !line.dirty {
                                        assert(self.backing.view() == s1.backing.view());
                                    }
                                    Self::lemma_remove_line(s1, *self, idx as int);
                                    assert(self.view() =~= s1.view());
                                }
                            }
                            self.charge(self.timing.invalidation_apply, clock);
                        },
                        None => {},
                    }
                },
                None => {
                    proof {
                        assert forall|k: int| 0 <= k < self.slots@.len() implies #[trigger] drop_lines(
                            self.slots@,
                            set![base as int],
                        )[k] == self.slots@[k] by {
                            if self.some_line(k) && self.line(k).base_addr == base {
                                assert(self.holds(k, base as int));
                            }
                        }
                        assert(drop_lines(self.slots@, set![base as int]) =~= self.slots@);
                    }
                },
            }
            j = j + 1;
        }
        proof {
            assert(addrs@.subrange(0, addrs@.len() as int) =~= addrs@);
        }
    }

    /// Installing a freshly filled line (written at `a` when `store`) into an
    /// empty slot shows the level below through it, with `n` at `a` for a store.
    proof fn lemma_install_fresh(s1: Self, s2: Self, i: int, l: CacheLine, a: int, n: u8, store: bool)
        requires
            s1.state_wf(),
            s1.state_coherent(),
            0 <= i < s1.slots@.len(),
            !s1.some_line(i),
            !s1.resident(l.base_addr as int),
            s2.slots@ == s1.slots@.update(i, Some(l)),
            s2.backing == s1.backing,
            s2.line_size == s1.line_size,
            s2.ways == s1.ways,
            s2.num_sets == s1.num_sets,
            (l.base_addr as int) % s1.line_len() == 0,
            s1.set_of(l.base_addr as int) == i / s1.way_count(),
            l.data@.len() == s1.line_len(),
            forall|k: int|
                0 <= k < s1.line_len() ==> #[trigger] s1.backing.accessible(l.base_addr + k),
            l.base_addr <= a < l.base_addr + s1.line_len(),
            l.dirty == store,
            forall|k: int|
                0 <= k < s1.line_len() ==> #[trigger] l.data@[k] == if store && k == a
                    - l.base_addr {
                    n
                } else {
                    s1.backing.view()[l.base_addr + k]
                },
        ensures
            s2.state_wf(),
            s2.state_coherent(),
            s2.view() == if store {
                s1.view().update(a, n)
            } else {
                s1.view()
            },
    {
        let ls = s1.line_len();
        let base = l.base_addr as int;
        assert(s1.backing.accessible(base + (a - base)));
        s1.backing.lemma_accessible_in_range(a);
        assert forall|j: int| j != i implies !#[trigger] s1.holds(j, base) by {
            if s1.holds(j, base) {
                assert(s1.resident(base));
            }
        }
        Self::lemma_install_line(s1, s2, i, l);
        assert forall|j: int| #[trigger] s2.some_line(j) && !s2.line(j).dirty implies s2.line_matches(
            j,
        ) by {
            if j != i {
                assert(s1.some_line(j));
                assert(s1.line_matches(j));
            } else {
                assert forall|k: int| 0 <= k < ls implies #[trigger] s2.line(j).data@[k]
                    == s2.backing.view()[s2.line(j).base_addr + k] by {
                    assert(l.data@[k] == s1.backing.view()[base + k]);
                }
            }
        }
        let expected = if store {
            s1.view().update(a, n)
        } else {
            s1.view()
        };
        assert forall|x: int| 0 <= x < s1.backing.view().len() implies #[trigger] s2.byte_at(x)
            == expected[x] by {
            assert(s1.view()[x] == s1.byte_at(x));
            if store {
                assert(expected[x] == s1.view().update(a, n)[x]);
            } else {
                assert(expected[x] == s1.view()[x]);
            }
            assert(expected[x] == if store && x == a { n } else { s1.byte_at(x) });
            if base <= x < base + ls {
                s1.lemma_byte_at_char(x);
                assert forall|j: int| !#[trigger] s1.covers(j, x) by {
                    if s1.covers(j, x) {
                        assert(s1.line_wf(j));
                        lemma_base_of(x, s1.line(j).base_addr as int, ls);
                        lemma_base_of(x, base, ls);
                        assert(s1.holds(j, base));
                    }
                }
                assert(l.data@[x - base] == if store && x - base == a - base {
                    n
                } else {
                    s1.backing.view()[base + (x - base)]
                });
                assert(s1.byte_at(x) == s1.backing.view()[x]);
                assert(s2.byte_at(x) == l.data@[x - base]);
            } else {
                assert(x != a);
                assert(s2.byte_at(x) == s1.byte_at(x));
            }
        }
        assert(s2.view() =~= expected);
    }

    /// Rewriting the resident line of slot `i` in place (touching it for a
    /// load, or writing `n` at `a` for a store) changes only the byte stored.
    proof fn lemma_update_resident(s1: Self, s2: Self, i: int, l: CacheLine, a: int, n: u8, store: bool)
        requires
            s1.state_wf(),
            s1.state_coherent(),
            s1.some_line(i),
            l.base_addr == s1.line(i).base_addr,
            s2.slots@ == s1.slots@.update(i, Some(l)),
            s2.backing == s1.backing,
            s2.line_size == s1.line_size,
            s2.ways == s1.ways,
            s2.num_sets == s1.num_sets,
            l.base_addr <= a < l.base_addr + s1.line_len(),
            l.dirty == (s1.line(i).dirty || store),
            l.data@ == if store {
                s1.line(i).data@.update(a - l.base_addr, n)
            } else {
                s1.line(i).data@
            },
        ensures
            s2.state_wf(),
            s2.state_coherent(),
            s2.view() == if store {
                s1.view().update(a, n)
            } else {
                s1.view()
            },
    {
        let ls = s1.line_len();
        assert(s1.line_wf(i));
        assert(s1.backing.accessible(l.base_addr + (a - l.base_addr)));
        s1.backing.lemma_accessible_in_range(a);
        assert forall|j: int| j != i implies !#[trigger] s1.holds(j, l.base_addr as int) by {
            if s1.holds(j, l.base_addr as int) {
                assert(s1.some_line(j) && s1.some_line(i));
            }
        }
        Self::lemma_install_line(s1, s2, i, l);
        assert forall|j: int| #[trigger] s2.some_line(j) && !s2.line(j).dirty implies s2.line_matches(
            j,
        ) by {
            assert(s1.some_line(j));
            assert(s1.line_matches(j));
        }
        let expected = if store {
            s1.view().update(a, n)
        } else {
            s1.view()
        };
        assert forall|x: int| 0 <= x < s1.backing.view().len() implies #[trigger] s2.byte_at(x)
            == expected[x] by {
            assert(s1.view()[x] == s1.byte_at(x));
            if store {
                assert(expected[x] == s1.view().update(a, n)[x]);
            } else {
                assert(expected[x] == s1.view()[x]);
            }
            assert(expected[x] == if store && x == a { n } else { s1.byte_at(x) });
            if l.base_addr <= x < l.base_addr + ls {
                s1.lemma_byte_at_hit(i, x);
                if store && x == a {
                    assert(l.data@[x - l.base_addr] == n);
                } else {
                    assert(l.data@[x - l.base_addr] == s1.line(i).data@[x - l.base_addr]);
                }
            } else {
                assert(x != a);
            }
        }
        assert(s2.view() =~= expected);
    }

    /// Handles a miss on the line `base` of set `set_idx`: evicts the victim
    /// way, refills it from the level below and performs the access on it.
    #[verifier::rlimit(100)]
    #[verifier::spinoff_prover]
    fn refill(
        &mut self,
        set_idx: usize,
        base: usize,
        addr: usize,
        n: u8,
        store: bool,
        charge_access: bool,
        use_count: usize,
        clock: &mut Clock,
    ) -> (r: u8)
        requires
            old(self).wf(),
            old(self).accessible(addr as int),
            base == old(self).base_of(addr as int),
            set_idx == old(self).set_of(base as int),
            set_idx < old(self).num_sets,
            !old(self).resident(base as int),
        ensures
            final(self).wf(),
            final(self).same_frame(old(self)),
            final(clock)@ >= old(clock)@,
            final(self).resident(base as int),
            old(self).set_full_at(set_idx as int) ==> !final(self).resident(
                old(self).line(set_idx * old(self).way_count() + old(self).victim_way(set_idx as int)).base_addr as int,
            ),
            final(self).backing.fixed_costs() == old(self).backing.fixed_costs(),
            old(self).backing.fixed_costs() matches Some(c) ==> final(clock)@ == tick_by(
                old(clock)@,
                old(self).refill_cost(set_idx as int, c, store, charge_access),
            ),
            old(self).backing.fixed_costs() is Some && old(self).backing.outgoing().len() == 0 ==> final(self).pending@
                == old(self).pending@ && final(self).backing.outgoing().len() == 0,
            old(self).coherent() ==> final(self).backing.view() == old(self).refill_backing(set_idx as int),
            final(clock)@ >= saturating_tick(
                old(clock)@,
                if charge_access && old(self).timed {
                    if store {
                        old(self).timing.store_miss
                    } else {
                        old(self).timing.load_miss
                    }
                } else {
                    0
                },
            ),
            !(old(self).notify_upper && old(self).set_full_at(set_idx as int)) ==> final(self).outgoing
                == old(self).outgoing,
            old(self).notify_upper && old(self).set_full_at(set_idx as int) ==> {
                &&& final(self).outgoing@.len() == old(self).outgoing@.len() + 1
                &&& final(self).outgoing@.drop_last() == old(self).outgoing@
                &&& old(self).resident(final(self).outgoing@.last() as int)
                &&& !final(self).resident(final(self).outgoing@.last() as int)
                &&& old(self).timed ==> final(clock)@ >= saturating_tick(old(clock)@, old(self).timing.invalidation_send)
            },
            old(self).coherent() ==> {
                &&& !store ==> r == old(self).view()[addr as int]
                &&& final(self).view() == if store {
                    old(self).view().update(addr as int, n)
                } else {
                    old(self).view()
                }
                &&& final(self).coherent()
            },
    {
        proof {
            lemma_base_of_props(addr as int, self.line_len());
            self.lemma_accessible_in_range(addr as int);
        }
        let offset = addr % self.line_size;
        let ghost s0 = *self;
        let ghost c0 = clock@;
        let ghost fc = s0.backing.fixed_costs();
        let victim = self.find_victim(set_idx);
        let ghost s1 = *self;
        let evicted = self.take_slot(victim);
        let ghost mut spent: int = 0;
        let ghost s_take = *self;
        let ghost mut gone: Option<int> = None;
        proof {
            Self::lemma_lines_take(s1, *self, victim as int);
            lemma_slot_in_set(victim as int, set_idx as int, s1.ways as int);
            if s1.set_full_at(set_idx as int) {
                assert(s1.some_line(set_idx * s1.ways + (victim - set_idx * s1.ways)));
            }
        }
        match evicted {
            Some(old_line) => {
                proof {
                    assert(s1.some_line(victim as int));
                    assert(s1.line_wf(victim as int));
                    gone = Some(old_line.base_addr as int);
                    assert(s1.holds(victim as int, old_line.base_addr as int));
                    assert(!self.resident(old_line.base_addr as int)) by {
                        if self.resident(old_line.base_addr as int) {
                            let j = self.slot_of(old_line.base_addr as int);
                            assert(self.holds(j, old_line.base_addr as int));
                            assert(s1.some_line(j) && s1.some_line(victim as int));
                        }
                    }
                }
                if old_line.dirty {
                    let ghost cw = clock@;
                    let ghost sw = *self;
                    self.write_back(&old_line, clock);
                    proof {
                        if s1.coherent() {
                            assert(sw.backing == s1.backing);
                            assert(self.backing.view() == overwrite(s1.backing.view(), old_line.base_addr as int, old_line.data@));
                        }
                    }
                    let ghost cw2 = clock@;
                    self.charge(self.timing.write_back, clock);
                    proof {
                        if let Some(c) = fc {
                            let wb: int = if self.timed { self.timing.write_back as int } else { 0 };
                            lemma_tick_by_twice(c0, 0, self.line_len() * c.1);
                            lemma_tick_by_twice(c0, self.line_len() * c.1, wb);
                            spent = self.line_len() * c.1 + wb;
                        }
                    }
                }
                proof {
                    if s1.coherent() {
                        if !old_line.dirty {
                            assert(self.backing.view() == s1.backing.view());
                        }
                        Self::lemma_remove_line(s1, *self, victim as int);
                        assert(self.view() =~= s1.view());
                    }
                    Self::lemma_lines_take(s1, *self, victim as int);
                }
                if self.notify_upper {
                    let ghost mid = *self;
                    self.outgoing.push(old_line.base_addr);
                    self.charge(self.timing.invalidation_send, clock);
                    proof {
                        if let Some(c) = fc {
                            let send: int = if self.timed { self.timing.invalidation_send as int } else { 0 };
                            lemma_tick_by_twice(c0, spent, send);
                            spent = spent + send;
                        }
                    }
                    proof {
                        Self::lemma_lines_frame(mid, *self);
                        if s1.coherent() {
                            Self::lemma_clean_frame(mid, *self);
                            assert forall|a: int| 0 <= a < self.backing.view().len() implies #[trigger] self.byte_at(a) == mid.byte_at(a) by {
                                Self::lemma_same_bytes(mid, *self, a);
                            }
                            assert(self.view() =~= mid.view());
                        }
                    }
                }
            },
            None => {
                proof {
                    assert(self.slots@ =~= s1.slots@);
                    Self::lemma_lines_frame(s1, *self);
                    if s1.coherent() {
                        Self::lemma_clean_frame(s1, *self);
                        assert forall|a: int| 0 <= a < self.backing.view().len() implies #[trigger] self.byte_at(a) == s1.byte_at(a) by {
                            Self::lemma_same_bytes(s1, *self, a);
                        }
                        assert(self.view() =~= s1.view());
                    }
                }
            },
        }
        let ghost s2 = *self;
        proof {
            if let Some(g) = gone {
                assert(!s_take.resident(g));
                assert(s2.slots@ == s_take.slots@);
                assert(!s2.resident(g)) by {
                    if s2.resident(g) {
                        let j = s2.slot_of(g);
                        assert(s2.holds(j, g));
                        assert(s_take.holds(j, g));
                    }
                }
                assert(s2.outgoing@.len() == s1.outgoing@.len() + if s1.notify_upper { 1int } else { 0int });
            }
            assert(!s2.resident(base as int)) by {
                if s2.resident(base as int) {
                    let j = s2.slot_of(base as int);
                    assert(s2.holds(j, base as int));
                    assert(s1.holds(j, base as int));
                }
            }
        }
        proof {
            if s0.coherent() {
                lemma_slot_in_set(victim as int, set_idx as int, s0.ways as int);
                if s0.set_full_at(set_idx as int) {
                    assert(s0.some_line(victim as int));
                }
                assert(self.backing.view() == s0.refill_backing(set_idx as int));
            }
            if let Some(c) = fc {
                assert(clock@ == tick_by(c0, spent));
                lemma_tick_by_twice(c0, spent, self.line_len() * c.0);
                spent = spent + self.line_len() * c.0;
            }
        }
        let mut new_line = self.fill_line(base, use_count, clock);
        let byte = new_line.data[offset];
        if store {
            new_line.data.set(offset, n);
            new_line.dirty = true;
        }
        let ghost s3 = *self;
        let ghost l = new_line;
        proof {
            Self::lemma_lines_frame(s2, s3);
            assert(!s3.resident(base as int)) by {
                if s3.resident(base as int) {
                    let j = s3.slot_of(base as int);
                    assert(s3.holds(j, base as int));
                    assert(s2.holds(j, base as int));
                }
            }
            if s0.coherent() {
                Self::lemma_clean_frame(s2, s3);
                assert forall|a: int| 0 <= a < s3.backing.view().len() implies #[trigger] s3.byte_at(a) == s2.byte_at(a) by {
                    Self::lemma_same_bytes(s2, s3, a);
                }
                assert(s3.view() =~= s2.view());
            }
        }
        self.slots.set(victim, Some(new_line));
        proof {
            if s0.coherent() {
                Self::lemma_install_fresh(s3, *self, victim as int, l, addr as int, n, store);
                assert(byte == s3.view()[addr as int]) by {
                    s3.lemma_byte_at_char(addr as int);
                    assert forall|j: int| !#[trigger] s3.covers(j, addr as int) by {
                        if s3.covers(j, addr as int) {
                            assert(s3.line_wf(j));
                            lemma_base_of(addr as int, s3.line(j).base_addr as int, s3.line_len());
                            assert(s3.holds(j, base as int));
                        }
                    }
                }
            } else {
                assert forall|j: int| j != victim implies !#[trigger] s3.holds(j, base as int) by {
                    if s3.holds(j, base as int) {
                        assert(s3.resident(base as int));
                    }
                }
                Self::lemma_install_line(s3, *self, victim as int, l);
            }
        }
        proof {
            assert(self.holds(victim as int, base as int));
            if let Some(g) = gone {
                assert(!self.resident(g)) by {
                    if self.resident(g) {
                        let j = self.slot_of(g);
                        assert(self.holds(j, g));
                        if j != victim {
                            assert(s3.holds(j, g));
                            assert(s2.holds(j, g));
                        }
                    }
                }
            }
        }
        let ghost cf = clock@;
        if charge_access {
            if store {
                self.charge(self.timing.store_miss, clock);
            } else {
                self.charge(self.timing.load_miss, clock);
            }
        }
        proof {
            if let Some(c) = fc {
                let m: int = if charge_access && s0.timed {
                    if store { s0.timing.store_miss as int } else { s0.timing.load_miss as int }
                } else {
                    0
                };
                assert(cf == tick_by(c0, spent));
                lemma_tick_by_twice(c0, spent, m);
                lemma_slot_in_set(victim as int, set_idx as int, s0.ways as int);
                if s0.set_full_at(set_idx as int) {
                    assert(s0.some_line(victim as int));
                }
                assert(spent + m == s0.refill_cost(set_idx as int, c, store, charge_access));
            }
        }
        byte
    }

    /// Loads (`store` false) or stores `n` (`store` true) the byte at `addr`.
    fn access_u8(&mut self, addr: usize, n: u8, store: bool, charge_access: bool, clock: &mut Clock) -> (r: u8)
        requires
            old(self).wf(),
            old(self).accessible(addr as int),
        ensures
            final(self).wf(),
            final(self).same_frame(old(self)),
            final(clock)@ >= old(clock)@,
            old(self).coherent() ==> {
                &&& !store ==> r == old(self).view()[addr as int]
                &&& final(self).view() == if store {
                    old(self).view().update(addr as int, n)
                } else {
                    old(self).view()
                }
                &&& final(self).coherent()
            },
            old(self).pending@.len() == 0 && old(self).backing.outgoing().len() == 0 && old(self).resident(
                old(self).base_of(addr as int),
            ) ==> final(clock)@ == saturating_tick(
                old(clock)@,
                if charge_access && old(self).timed {
                    if store {
                        old(self).timing.store_hit
                    } else {
                        old(self).timing.load_hit
                    }
                } else {
                    0
                },
            ),
            old(self).pending@.len() == 0 && old(self).backing.outgoing().len() == 0 && old(self).resident(
                old(self).base_of(addr as int),
            ) ==> {
                &&& final(self).backing.view() == old(self).backing.view()
                &&& final(self).backing.outgoing().len() == 0
                &&& final(self).pending@.len() == 0
                &&& final(self).resident(old(self).base_of(addr as int))
                &&& final(self).outgoing == old(self).outgoing
            },
            old(self).pending@.len() == 0 && old(self).backing.outgoing().len() == 0 && !old(self).resident(
                old(self).base_of(addr as int),
            ) ==> {
                &&& final(self).resident(old(self).base_of(addr as int))
                &&& old(self).backing.fixed_costs() matches Some(c) ==> final(clock)@ == tick_by(
                    old(clock)@,
                    old(self).refill_cost(old(self).set_of(old(self).base_of(addr as int)), c, store, charge_access),
                )
                &&& old(self).victim_base(addr as int) matches Some(v) ==> !final(self).resident(v)
                &&& old(self).backing.fixed_costs() is Some ==> final(self).pending@.len() == 0
                    && final(self).backing.outgoing().len() == 0
                &&& old(self).coherent() ==> final(self).backing.view() == old(self).refill_backing(
                    old(self).set_of(old(self).base_of(addr as int)),
                )
                &&& final(self).backing.fixed_costs() == old(self).backing.fixed_costs()
                &&& final(clock)@ >= saturating_tick(
                    old(clock)@,
                    if charge_access && old(self).timed {
                        if store {
                            old(self).timing.store_miss
                        } else {
                            old(self).timing.load_miss
                        }
                    } else {
                        0
                    },
                )
                &&& !(old(self).notify_upper && old(self).set_full(addr as int)) ==> final(self).outgoing
                    == old(self).outgoing
                &&& old(self).notify_upper && old(self).set_full(addr as int) ==> {
                    &&& final(self).outgoing@.len() == old(self).outgoing@.len() + 1
                    &&& final(self).outgoing@.drop_last() == old(self).outgoing@
                    &&& old(self).resident(final(self).outgoing@.last() as int)
                    &&& !final(self).resident(final(self).outgoing@.last() as int)
                    &&& old(self).timed ==> final(clock)@ >= saturating_tick(
                        old(clock)@,
                        old(self).timing.invalidation_send,
                    )
                }
            },
    {
        proof {
            lemma_base_of_props(addr as int, self.line_len());
            self.lemma_accessible_in_range(addr as int);
        }
        let set_idx = self.set_index(addr);
        let base = self.line_base(addr);
        let offset = addr % self.line_size;
        let use_count = self.next_use_counter();
        proof {
            Self::lemma_lines_frame(*old(self), *self);
            if old(self).coherent() {
                Self::lemma_clean_frame(*old(self), *self);
            }
            assert forall|a: int| 0 <= a < self.backing.view().len() implies #[trigger] self.byte_at(a) == old(self).byte_at(a) by {
                Self::lemma_same_bytes(*old(self), *self, a);
            }
            assert(self.view() =~= old(self).view());
        }
        let ghost before_drain = *self;
        self.drain();
        proof {
            Self::lemma_lines_frame(before_drain, *self);
            if old(self).coherent() {
                Self::lemma_clean_frame(before_drain, *self);
            }
            assert forall|a: int| 0 <= a < self.backing.view().len() implies #[trigger] self.byte_at(a) == before_drain.byte_at(a) by {
                Self::lemma_same_bytes(before_drain, *self, a);
            }
            assert(self.view() =~= before_drain.view());
        }
        if self.pending.len() > 0 {
            self.apply_pending_invalidations(clock);
        }
        let ghost s0 = *self;
        match self.search(set_idx, base) {
            Some(idx) => {
                let taken = self.take_slot(idx);
                match taken {
                    Some(mut line) => {
                        proof {
                            assert(s0.some_line(idx as int));
                            s0.lemma_slot_of(idx as int, base as int);
                            if old(self).pending@.len() == 0 && old(self).backing.outgoing().len() == 0 {
                                assert(s0.slots@ == old(self).slots@);
                                assert(old(self).holds(idx as int, base as int));
                            }
                        }
                        let byte = line.data[offset];
                        if store {
                            line.data.set(offset, n);
                            line.dirty = true;
                        }
                        line.last_used = use_count;
                        let ghost l = line;
                        self.slots.set(idx, Some(line));
                        proof {
                            assert(self.slots@ =~= s0.slots@.update(idx as int, Some(l)));
                            assert(self.holds(idx as int, base as int));
                            if s0.coherent() {
                                Self::lemma_update_resident(s0, *self, idx as int, l, addr as int, n, store);
                                s0.lemma_byte_at_hit(idx as int, addr as int);
                            } else {
                                Self::lemma_install_line(s0, *self, idx as int, l);
                            }
                        }
                        if charge_access {
                            if store {
                                self.charge(self.timing.store_hit, clock);
                            } else {
                                self.charge(self.timing.load_hit, clock);
                            }
                        }
                        return byte;
                    },
                    None => {},
                }
            },
            None => {},
        }
        // Miss: evict the victim way and refill it from the level below.
        proof {
            if old(self).pending@.len() == 0 && old(self).backing.outgoing().len() == 0 && old(self).resident(base as int) {
                let j = old(self).slot_of(base as int);
                assert(old(self).holds(j, base as int));
                assert(s0.holds(j, base as int));
            }
        }
        proof {
            if old(self).pending@.len() == 0 && old(self).backing.outgoing().len() == 0 {
                assert(s0.slots@ == old(self).slots@);
                assert(s0.outgoing == old(self).outgoing);
                assert(clock@ == old(clock)@);
                if old(self).set_full(addr as int) {
                    assert forall|v: int| 0 <= v < s0.ways implies #[trigger] s0.some_line(set_idx * s0.ways + v) by {
                        assert(old(self).some_line(set_idx * old(self).ways + v));
                    }
                    assert(s0.set_full_at(set_idx as int));
                }
                if s0.set_full_at(set_idx as int) {
                    assert forall|v: int| 0 <= v < old(self).ways implies #[trigger] old(self).some_line(
                        set_idx * old(self).ways + v,
                    ) by {
                        assert(s0.some_line(set_idx * s0.ways + v));
                    }
                    assert(old(self).set_full(addr as int));
                }
            }
        }
        let r = self.refill(set_idx, base, addr, n, store, charge_access, use_count, clock);
        proof {
            if old(self).pending@.len() == 0 && old(self).backing.outgoing().len() == 0 {
                let set = set_idx as int;
                assert(s0.slots@ == old(self).slots@);
                assert(s0.ways == old(self).ways);
                assert(0 <= set < s0.set_count());
                Self::lemma_victim_same_lines(s0, *old(self), set);
                assert(s0.backing.view() == old(self).backing.view());
                assert(s0.refill_backing(set) == old(self).refill_backing(set));
                assert(s0.backing.fixed_costs() == old(self).backing.fixed_costs());
            }
            if old(self).pending@.len() == 0 && old(self).backing.outgoing().len() == 0 && self.outgoing@.len() > 0 {
                let b = self.outgoing@.last() as int;
                if s0.resident(b) {
                    let j = s0.slot_of(b);
                    assert(s0.holds(j, b));
                    assert(old(self).holds(j, b));
                }
            }
        }
        r
    }
}

impl<M: MemoryDevice> MemoryDevice for SetAssociativeCache<M> {
    closed spec fn view(&self) -> Seq<u8> {
        Seq::new(self.backing.view().len(), |a: int| self.byte_at(a))
    }

    closed spec fn wf(&self) -> bool {
        self.state_wf()
    }

    closed spec fn accessible(&self, addr: int) -> bool {
        &&& 0 <= addr
        &&& forall|k: int|
            0 <= k < self.line_len() ==> #[trigger] self.backing.accessible(self.base_of(addr) + k)
    }

    closed spec fn coherent(&self) -> bool {
        self.state_coherent()
    }

    open spec fn exclusive(&self, addr: int) -> bool {
        true
    }

    closed spec fn outgoing(&self) -> Seq<usize> {
        self.outgoing@
    }

    open spec fn fixed_costs(&self) -> Option<(u64, u64)> {
        None
    }

    closed spec fn holds_line(&self, addr: int) -> bool {
        self.resident(self.base_of(addr)) || self.backing.holds_line(addr)
    }

    proof fn lemma_accessible_in_range(&self, addr: int) {
        lemma_base_of_props(addr, self.line_len());
        let k = addr - self.base_of(addr);
        assert(self.backing.accessible(self.base_of(addr) + k));
        self.backing.lemma_accessible_in_range(addr);
    }

    fn load_u8(&mut self, addr: usize, clock: &mut Clock) -> (r: u8) 
        ensures
            old(self).pending_invalidations().len() == 0 && old(self).backing_spec().outgoing().len() == 0
                && old(self).resident(old(self).base_of(addr as int)) ==> final(clock)@ == saturating_tick(
                old(clock)@,
                if old(self).is_timed() { old(self).timing_spec().load_hit } else { 0 },
            ),
            old(self).ready_hit(addr as int) ==> final(self).backing_spec().view() == old(self).backing_spec().view(),
            old(self).ready_miss(addr as int) ==> {
                &&& Self::miss_evicts(*old(self), *final(self), addr as int)
                &&& old(self).backing_spec().fixed_costs() matches Some(c) ==> final(clock)@ == tick_by(
                    old(clock)@,
                    old(self).miss_cost(addr as int, c, false),
                )
                &&& old(self).coherent() ==> final(self).backing_spec().view() == old(self).backing_after_miss(addr as int)
                &&& old(self).victim_base(addr as int) matches Some(v) ==> !final(self).resident(v)
                &&& final(clock)@ >= saturating_tick(
                    old(clock)@,
                    if old(self).is_timed() { old(self).timing_spec().load_miss } else { 0 },
                )
                &&& old(self).is_timed() && old(self).notifies() && old(self).set_full(addr as int) ==> final(clock)@
                    >= saturating_tick(old(clock)@, old(self).timing_spec().invalidation_send)
            },
    {
        let r = self.access_u8(addr, 0, false, true, clock);
        proof {
            assert(self.fixed_costs() == old(self).fixed_costs());
            old(self).lemma_miss_cost(addr as int, (0, 0), false);
            if let Some(c) = old(self).backing.fixed_costs() {
                old(self).lemma_miss_cost(addr as int, c, false);
            }
            Self::lemma_accessible_frame(*old(self), *self);
        }
        r
    }

    fn store_u8(&mut self, addr: usize, n: u8, clock: &mut Clock) 
        ensures
            old(self).pending_invalidations().len() == 0 && old(self).backing_spec().outgoing().len() == 0
                && old(self).resident(old(self).base_of(addr as int)) ==> final(clock)@ == saturating_tick(
                old(clock)@,
                if old(self).is_timed() { old(self).timing_spec().store_hit } else { 0 },
            ),
            old(self).ready_hit(addr as int) ==> final(self).backing_spec().view() == old(self).backing_spec().view(),
            old(self).ready_miss(addr as int) ==> {
                &&& Self::miss_evicts(*old(self), *final(self), addr as int)
                &&& old(self).backing_spec().fixed_costs() matches Some(c) ==> final(clock)@ == tick_by(
                    old(clock)@,
                    old(self).miss_cost(addr as int, c, true),
                )
                &&& old(self).coherent() ==> final(self).backing_spec().view() == old(self).backing_after_miss(addr as int)
                &&& old(self).victim_base(addr as int) matches Some(v) ==> !final(self).resident(v)
                &&& final(clock)@ >= saturating_tick(
                    old(clock)@,
                    if old(self).is_timed() { old(self).timing_spec().store_miss } else { 0 },
                )
                &&& old(self).is_timed() && old(self).notifies() && old(self).set_full(addr as int) ==> final(clock)@
                    >= saturating_tick(old(clock)@, old(self).timing_spec().invalidation_send)
            },
    {
        self.access_u8(addr, n, true, true, clock);
        proof {
            assert(self.fixed_costs() == old(self).fixed_costs());
            old(self).lemma_miss_cost(addr as int, (0, 0), true);
            if let Some(c) = old(self).backing.fixed_costs() {
                old(self).lemma_miss_cost(addr as int, c, true);
            }
            Self::lemma_accessible_frame(*old(self), *self);
        }
    }

    fn load_u16(&mut self, addr: usize, clock: &mut Clock) -> (r: u16) {
        proof {
            self.lemma_accessible_in_range(addr + 1);
        }
        let second_line = self.line_base(addr + 1) != self.line_base(addr);
        let ghost s0 = *self;
        let lo = self.access_u8(addr, 0, false, true, clock);
        let ghost s1 = *self;
        proof {
            Self::lemma_accessible_frame(s0, s1);
        }
        let hi = self.access_u8(addr + 1, 0, false, second_line, clock);
        proof {
            Self::lemma_frame_trans(s0, s1, *self);
            Self::lemma_accessible_frame(s0, *self);
        }
        lo as u16 + hi as u16 * 256
    }

    fn store_u16(&mut self, addr: usize, n: u16, clock: &mut Clock) {
        proof {
            self.lemma_accessible_in_range(addr + 1);
        }
        let second_line = self.line_base(addr + 1) != self.line_base(addr);
        let ghost s0 = *self;
        self.access_u8(addr, (n % 256) as u8, true, true, clock);
        let ghost s1 = *self;
        proof {
            Self::lemma_accessible_frame(s0, s1);
        }
        self.access_u8(addr + 1, (n / 256) as u8, true, second_line, clock);
        proof {
            Self::lemma_frame_trans(s0, s1, *self);
            Self::lemma_accessible_frame(s0, *self);
        }
    }

    fn load_u32(&mut self, addr: usize, clock: &mut Clock) -> (r: u32)
        ensures
            old(self).ready_hit(addr as int) && (addr as int) % old(self).line_len() + 4 <= old(self).line_len()
                ==> final(clock)@ == saturating_tick(
                old(clock)@,
                if old(self).is_timed() { old(self).timing_spec().load_hit } else { 0 },
            ) && final(self).backing_spec().view() == old(self).backing_spec().view(),
            old(self).ready_miss(addr as int) ==> final(clock)@ >= saturating_tick(
                old(clock)@,
                if old(self).is_timed() { old(self).timing_spec().load_miss } else { 0 },
            ),
            old(self).ready_miss(addr as int) && (addr as int) % old(self).line_len() + 4 <= old(self).line_len()
                ==> (old(self).backing_spec().fixed_costs() matches Some(c) ==> final(clock)@ == tick_by(
                old(clock)@,
                old(self).miss_cost(addr as int, c, false),
            )),
    {
        proof {
            self.lemma_accessible_in_range(addr + 3);
            if (addr as int) % self.line_len() + 4 <= self.line_len() {
                let ls = self.line_len();
                lemma_base_of_props(addr as int, ls);
                let b = self.base_of(addr as int);
                lemma_base_of(addr + 1, b, ls);
                lemma_base_of(addr + 2, b, ls);
                lemma_base_of(addr + 3, b, ls);
            }
        }
        let c1 = self.line_base(addr + 1) != self.line_base(addr);
        let c2 = self.line_base(addr + 2) != self.line_base(addr + 1);
        let c3 = self.line_base(addr + 3) != self.line_base(addr + 2);
        let ghost s0 = *self;
        let b0 = self.access_u8(addr, 0, false, true, clock);
        let ghost s1 = *self;
        proof {
            Self::lemma_accessible_frame(s0, s1);
        }
        let b1 = self.access_u8(addr + 1, 0, false, c1, clock);
        let ghost s2 = *self;
        proof {
            Self::lemma_frame_trans(s0, s1, s2);
            Self::lemma_accessible_frame(s0, s2);
        }
        let b2 = self.access_u8(addr + 2, 0, false, c2, clock);
        let ghost s3 = *self;
        proof {
            Self::lemma_frame_trans(s0, s2, s3);
            Self::lemma_accessible_frame(s0, s3);
        }
        let b3 = self.access_u8(addr + 3, 0, false, c3, clock);
        proof {
            Self::lemma_frame_trans(s0, s3, *self);
            Self::lemma_accessible_frame(s0, *self);
            if s0.ready_miss(addr as int) && (addr as int) % s0.line_len() + 4 <= s0.line_len() {
                if let Some(c) = s0.backing.fixed_costs() {
                    s0.lemma_miss_cost(addr as int, c, false);
                    assert(s1.base_of(addr + 1) == s0.base_of(addr as int));
                    assert(s2.base_of(addr + 2) == s0.base_of(addr as int));
                    assert(s3.base_of(addr + 3) == s0.base_of(addr as int));
                }
            }
        }
        b0 as u32 + b1 as u32 * 256 + b2 as u32 * 65536 + b3 as u32 * 16777216
    }

    fn store_u32(&mut self, addr: usize, n: u32, clock: &mut Clock) {
        proof {
            self.lemma_accessible_in_range(addr + 3);
        }
        let c1 = self.line_base(addr + 1) != self.line_base(addr);
        let c2 = self.line_base(addr + 2) != self.line_base(addr + 1);
        let c3 = self.line_base(addr + 3) != self.line_base(addr + 2);
        let ghost s0 = *self;
        self.access_u8(addr, (n % 256) as u8, true, true, clock);
        let ghost s1 = *self;
        proof {
            Self::lemma_accessible_frame(s0, s1);
        }
        self.access_u8(addr + 1, ((n / 256) % 256) as u8, true, c1, clock);
        let ghost s2 = *self;
        proof {
            Self::lemma_frame_trans(s0, s1, s2);
            Self::lemma_accessible_frame(s0, s2);
        }
        self.access_u8(addr + 2, ((n / 65536) % 256) as u8, true, c2, clock);
        let ghost s3 = *self;
        proof {
            Self::lemma_frame_trans(s0, s2, s3);
            Self::lemma_accessible_frame(s0, s3);
        }
        self.access_u8(addr + 3, (n / 16777216) as u8, true, c3, clock);
        proof {
            Self::lemma_frame_trans(s0, s3, *self);
            Self::lemma_accessible_frame(s0, *self);
        }
    }

    fn peek_u8(&self, addr: usize) -> (r: u8) {
        proof {
            lemma_base_of_props(addr as int, self.line_len());
        }
        let set_idx = self.set_index(addr);
        let base = self.line_base(addr);
        match self.search(set_idx, base) {
            Some(idx) => {
                match &self.slots[idx] {
                    Some(line) => {
                        proof {
                            assert(self.line_wf(idx as int));
                            self.lemma_byte_at_hit(idx as int, addr as int);
                            self.lemma_accessible_in_range(addr as int);
                        }
                        return line.data[addr % self.line_size];
                    },
                    None => {},
                }
            },
            None => {},
        }
        proof {
            self.lemma_accessible_in_range(addr as int);
            assert(self.backing.accessible(self.base_of(addr as int) + (addr - self.base_of(
                addr as int,
            ))));
        }
        self.backing.peek_u8(addr)
    }

    fn store_backmost_u8(&mut self, addr: usize, n: u8, clock: &mut Clock) {
        proof {
            lemma_base_of_props(addr as int, self.line_len());
            assert(self.backing.accessible(self.base_of(addr as int) + (addr - self.base_of(
                addr as int,
            ))));
        }
        self.backing.store_backmost_u8(addr, n, clock);
        proof {
            Self::lemma_lines_frame(*old(self), *self);
            Self::lemma_resident_frame(*old(self), *self);
            Self::lemma_accessible_frame(*old(self), *self);
            if old(self).coherent() && !old(self).holds_line(addr as int) {
                assert(old(self).backing.exclusive(addr as int));
                old(self).lemma_accessible_in_range(addr as int);
                assert(self.backing.view() == old(self).backing.view().update(addr as int, n));
                assert forall|i: int| #[trigger] self.some_line(i) && !self.line(i).dirty implies self.line_matches(i) by {
                    assert(old(self).some_line(i));
                    assert(old(self).line_matches(i));
                    assert(old(self).line_wf(i));
                    let l = self.line(i);
                    assert(!(l.base_addr <= addr < l.base_addr + self.line_len())) by {
                        if l.base_addr <= addr < l.base_addr + self.line_len() {
                            lemma_base_of(addr as int, l.base_addr as int, self.line_len());
                            assert(old(self).holds(i, old(self).base_of(addr as int)));
                            assert(old(self).resident(old(self).base_of(addr as int)));
                        }
                    }
                    assert forall|k: int| 0 <= k < self.line_len() implies #[trigger] l.data@[k] == self.backing.view()[l.base_addr + k] by {
                        assert(l.data@[k] == old(self).backing.view()[l.base_addr + k]);
                        assert(old(self).backing.accessible(l.base_addr + k));
                        old(self).backing.lemma_accessible_in_range(l.base_addr + k);
                    }
                }
                assert forall|a: int| 0 <= a < self.backing.view().len() implies #[trigger] self.byte_at(a) == old(self).view().update(addr as int, n)[a] by {
                    old(self).lemma_byte_at_char(a);
                    self.lemma_byte_at_char(a);
                    if a == addr {
                        assert forall|j: int| !#[trigger] old(self).covers(j, a) by {
                            if old(self).covers(j, a) {
                                assert(old(self).line_wf(j));
                                lemma_base_of(a, old(self).line(j).base_addr as int, self.line_len());
                                assert(old(self).holds(j, old(self).base_of(a)));
                                assert(old(self).resident(old(self).base_of(a)));
                            }
                        }
                    } else {
                        if exists|j: int| #[trigger] old(self).covers(j, a) {
                            let j = choose|j: int| #[trigger] old(self).covers(j, a);
                            assert(self.covers(j, a));
                        } else {
                            assert forall|j: int| !#[trigger] self.covers(j, a) by {
                                if self.covers(j, a) {
                                    assert(old(self).covers(j, a));
                                }
                            }
                        }
                    }
                }
                assert(self.view() =~= old(self).view().update(addr as int, n));
            }
            if old(self).coherent() {
                assert(self.backing_exclusive());
            }
        }
    }

    fn take_invalidations(&mut self) -> (v: Vec<usize>) {
        let mut v: Vec<usize> = Vec::new();
        std::mem::swap(&mut v, &mut self.outgoing);
        proof {
            Self::lemma_lines_frame(*old(self), *self);
            if old(self).coherent() {
                Self::lemma_clean_frame(*old(self), *self);
            }
            Self::lemma_resident_frame(*old(self), *self);
            Self::lemma_accessible_frame(*old(self), *self);
            assert forall|a: int| 0 <= a < self.backing.view().len() implies #[trigger] self.byte_at(a) == old(self).byte_at(a) by {
                Self::lemma_same_bytes(*old(self), *self, a);
            }
            assert(self.view() =~= old(self).view());
        }
        v
    }
}

impl<M: MemoryDevice> SetAssociativeCache<M> {
    /// An empty cache of `num_sets` sets of `ways` lines of `line_size` bytes
    /// in front of `backing`.
    pub fn new(line_size: usize, num_sets: usize, ways: usize, backing: M) -> (c: Self)
        requires
            line_size > 0,
            num_sets > 0,
            ways > 0,
            num_sets * ways <= usize::MAX,
            backing.wf(),
        ensures
            c.wf(),
            c.view() == backing.view(),
            c.coherent() == (backing.coherent() && forall|a: int|
                backing.accessible(a) ==> #[trigger] backing.exclusive(a)),
            c.backing_spec() == backing,
            c.line_len() == line_size,
            c.set_count() == num_sets,
            c.way_count() == ways,
            !c.is_timed(),
            c.timing_spec() == CacheTiming::default_spec(),
            !c.notifies(),
            c.outgoing() == Seq::<usize>::empty(),
            c.pending_invalidations() == Seq::<usize>::empty(),
            forall|b: int| !#[trigger] c.resident(b),
            forall|b: int| #[trigger] c.holds_line(b) == backing.holds_line(b),
    {
        let total = num_sets * ways;
        let mut slots: Vec<Option<CacheLine>> = Vec::new();
        let mut i: usize = 0;
        while i < total
            invariant
                i <= total,
                slots@.len() == i,
                forall|j: int| 0 <= j < i ==> #[trigger] slots@[j] is None,
            decreases total - i,
        {
            slots.push(None);
            i = i + 1;
        }
        let c = SetAssociativeCache {
            line_size,
            num_sets,
            ways,
            slots,
            use_counter: 0,
            backing,
            timed: false,
            timing: CacheTiming::default(),
            notify_upper: false,
            outgoing: Vec::new(),
            pending: Vec::new(),
        };
        proof {
            assert forall|j: int| !#[trigger] c.some_line(j) by {
                if 0 <= j < c.slots@.len() {
                    assert(c.slots@[j] is None);
                }
            }
            assert forall|b: int| !#[trigger] c.resident(b) by {
                if c.resident(b) {
                    let j = c.slot_of(b);
                    assert(c.holds(j, b));
                }
            }
            assert forall|a: int| 0 <= a < c.backing.view().len() implies #[trigger] c.byte_at(a) == c.backing.view()[a] by {
                if c.resident(c.base_of(a)) {
                    let j = c.slot_of(c.base_of(a));
                    assert(c.holds(j, c.base_of(a)));
                }
            }
            assert(c.view() =~= backing.view());
        }
        c
    }

    /// Makes every later access charge the clock it is given.
    pub fn with_clock(self) -> (c: Self)
        ensures
            c.wf() == self.wf(),
            c.backing_spec() == self.backing_spec(),
            c.timing_spec() == self.timing_spec(),
            c.notifies() == self.notifies(),
            c.line_len() == self.line_len(),
            c.set_count() == self.set_count(),
            c.way_count() == self.way_count(),
            forall|b: int| #[trigger] c.resident(b) == self.resident(b),
            forall|b: int| #[trigger] c.holds_line(b) == self.holds_line(b),
            self.wf() ==> c.view() == self.view(),
            c.coherent() == self.coherent(),
            c.is_timed(),
    {
        let c = SetAssociativeCache { timed: true, ..self };
        proof {
            Self::lemma_bookkeeping_frame(self, c);
            Self::lemma_resident_frame(self, c);
        }
        c
    }

    pub fn with_timing(self, timing: CacheTiming) -> (c: Self)
        ensures
            c.wf() == self.wf(),
            c.backing_spec() == self.backing_spec(),
            c.is_timed() == self.is_timed(),
            c.notifies() == self.notifies(),
            c.line_len() == self.line_len(),
            c.set_count() == self.set_count(),
            c.way_count() == self.way_count(),
            forall|b: int| #[trigger] c.resident(b) == self.resident(b),
            forall|b: int| #[trigger] c.holds_line(b) == self.holds_line(b),
            self.wf() ==> c.view() == self.view(),
            c.coherent() == self.coherent(),
            c.timing_spec() == timing,
    {
        let c = SetAssociativeCache { timing, ..self };
        proof {
            Self::lemma_bookkeeping_frame(self, c);
            Self::lemma_resident_frame(self, c);
        }
        c
    }

    /// Makes this cache report each line it evicts to the level above it,
    /// which then drops its own copy (an inclusive hierarchy).
    pub fn set_invalidation_listener(&mut self)
        ensures
            final(self).wf() == old(self).wf(),
            final(self).backing_spec() == old(self).backing_spec(),
            final(self).is_timed() == old(self).is_timed(),
            final(self).timing_spec() == old(self).timing_spec(),
            final(self).line_len() == old(self).line_len(),
            final(self).set_count() == old(self).set_count(),
            final(self).way_count() == old(self).way_count(),
            forall|b: int| #[trigger] final(self).resident(b) == old(self).resident(b),
            forall|b: int| #[trigger] final(self).holds_line(b) == old(self).holds_line(b),
            old(self).wf() ==> final(self).view() == old(self).view(),
            final(self).coherent() == old(self).coherent(),
            final(self).notifies(),
    {
        self.notify_upper = true;
        proof {
            Self::lemma_bookkeeping_frame(*old(self), *self);
            Self::lemma_resident_frame(*old(self), *self);
        }
    }

    /// The level below this cache.
    pub fn backing_memory(&self) -> (m: &M)
        ensures
            *m == self.backing_spec(),
    {
        &self.backing
    }

    /// The level below this cache, for direct access that bypasses it.
    pub fn backing_memory_mut(&mut self) -> (m: &mut M)
        ensures
            *m == old(self).backing_spec(),
            final(self).backing_spec() == *final(m),
            final(self).is_timed() == old(self).is_timed(),
            final(self).timing_spec() == old(self).timing_spec(),
            final(self).notifies() == old(self).notifies(),
    {
        &mut self.backing
    }
}

impl<M: MemoryDevice> InvalidationListener for SetAssociativeCache<M> {
    /// Queues the line for removal at the start of the next access.
    fn invalidate_line(&mut self, base_addr: usize, clock: &mut Clock)
        ensures
            final(self).pending_invalidations() == old(self).pending_invalidations().push(base_addr),
            final(clock)@ == old(clock)@,
    {
        self.pending.push(base_addr);
        proof {
            Self::lemma_lines_frame(*old(self), *self);
            if old(self).coherent() {
                Self::lemma_clean_frame(*old(self), *self);
            }
            Self::lemma_accessible_frame(*old(self), *self);
            assert forall|a: int| 0 <= a < self.backing.view().len() implies #[trigger] self.byte_at(a) == old(self).byte_at(a) by {
                Self::lemma_same_bytes(*old(self), *self, a);
            }
            assert(self.view() =~= old(self).view());
        }
    }
}

/// A set-associative cache whose associativity is fixed by its type.
pub struct Cache<const ASSOCIATIVITY: usize, M: MemoryDevice> {
    inner: SetAssociativeCache<M>,
}

/// First-level cache geometry: 4 ways.
pub type L1Cache<M> = Cache<4, M>;

/// Second-level cache geometry: 8 ways.
pub type L2Cache<M> = Cache<8, M>;

/// Third-level cache geometry: 16 ways.
pub type L3Cache<M> = Cache<16, M>;

impl<const ASSOCIATIVITY: usize, M: MemoryDevice> Cache<ASSOCIATIVITY, M> {
    /// The cache this one is made of.
    pub closed spec fn inner_spec(&self) -> SetAssociativeCache<M> {
        self.inner
    }

    pub fn new(line_size: usize, num_sets: usize, backing: M) -> (c: Self)
        requires
            ASSOCIATIVITY > 0,
            line_size > 0,
            num_sets > 0,
            num_sets * ASSOCIATIVITY <= usize::MAX,
            backing.wf(),
        ensures
            c.wf(),
            c.view() == backing.view(),
            c.coherent() == (backing.coherent() && forall|a: int|
                backing.accessible(a) ==> #[trigger] backing.exclusive(a)),
            c.inner_spec().backing_spec() == backing,
            c.inner_spec().line_len() == line_size,
            c.inner_spec().set_count() == num_sets,
            c.inner_spec().way_count() == ASSOCIATIVITY,
            !c.inner_spec().is_timed(),
            !c.inner_spec().notifies(),
            forall|b: int| !#[trigger] c.inner_spec().resident(b),
    {
        Cache { inner: SetAssociativeCache::new(line_size, num_sets, ASSOCIATIVITY, backing) }
    }

    pub fn with_clock(self) -> (c: Self)
        ensures
            c.wf() == self.wf(),
            self.wf() ==> c.view() == self.view(),
            c.coherent() == self.coherent(),
            c.inner_spec().is_timed(),
            c.inner_spec().timing_spec() == self.inner_spec().timing_spec(),
            c.inner_spec().backing_spec() == self.inner_spec().backing_spec(),
    {
        Cache { inner: self.inner.with_clock() }
    }

    pub fn with_timing(self, timing: CacheTiming) -> (c: Self)
        ensures
            c.wf() == self.wf(),
            self.wf() ==> c.view() == self.view(),
            c.coherent() == self.coherent(),
            c.inner_spec().is_timed() == self.inner_spec().is_timed(),
            c.inner_spec().timing_spec() == timing,
            c.inner_spec().backing_spec() == self.inner_spec().backing_spec(),
    {
        Cache { inner: self.inner.with_timing(timing) }
    }

    /// Makes this cache report each line it evicts to the level above it.
    pub fn set_invalidation_listener(&mut self)
        ensures
            final(self).wf() == old(self).wf(),
            old(self).wf() ==> final(self).view() == old(self).view(),
            final(self).coherent() == old(self).coherent(),
            final(self).inner_spec().notifies(),
            final(self).inner_spec().backing_spec() == old(self).inner_spec().backing_spec(),
    {
        self.inner.set_invalidation_listener();
    }

    pub fn backing_memory(&self) -> (m: &M)
        ensures
            *m == self.inner_spec().backing_spec(),
    {
        self.inner.backing_memory()
    }

    pub fn backing_memory_mut(&mut self) -> (m: &mut M)
        ensures
            *m == old(self).inner_spec().backing_spec(),
            final(self).inner_spec().backing_spec() == *final(m),
    {
        self.inner.backing_memory_mut()
    }
}

impl<const ASSOCIATIVITY: usize, M: MemoryDevice> MemoryDevice for Cache<ASSOCIATIVITY, M> {
    open spec fn view(&self) -> Seq<u8> {
        self.inner_spec().view()
    }

    open spec fn wf(&self) -> bool {
        self.inner_spec().wf()
    }

    open spec fn accessible(&self, addr: int) -> bool {
        self.inner_spec().accessible(addr)
    }

    open spec fn coherent(&self) -> bool {
        self.inner_spec().coherent()
    }

    open spec fn exclusive(&self, addr: int) -> bool {
        self.inner_spec().exclusive(addr)
    }

    open spec fn outgoing(&self) -> Seq<usize> {
        self.inner_spec().outgoing()
    }

    open spec fn fixed_costs(&self) -> Option<(u64, u64)> {
        None
    }

    open spec fn holds_line(&self, addr: int) -> bool {
        self.inner_spec().holds_line(addr)
    }

    proof fn lemma_accessible_in_range(&self, addr: int) {
        self.inner.lemma_accessible_in_range(addr);
    }

    fn load_u8(&mut self, addr: usize, clock: &mut Clock) -> (r: u8)
        ensures
            old(self).inner_spec().ready_hit(addr as int) ==> final(clock)@ == saturating_tick(
                old(clock)@,
                if old(self).inner_spec().is_timed() { old(self).inner_spec().timing_spec().load_hit } else { 0 },
            ) && final(self).inner_spec().backing_spec().view() == old(self).inner_spec().backing_spec().view(),
            old(self).inner_spec().ready_miss(addr as int) ==> SetAssociativeCache::<M>::miss_evicts(
                old(self).inner_spec(),
                final(self).inner_spec(),
                addr as int,
            ) && final(clock)@ >= saturating_tick(
                old(clock)@,
                if old(self).inner_spec().is_timed() { old(self).inner_spec().timing_spec().load_miss } else { 0 },
            ),
            old(self).inner_spec().ready_miss(addr as int) ==> (old(self).inner_spec().backing_spec().fixed_costs() matches Some(
                c,
            ) ==> final(clock)@ == tick_by(old(clock)@, old(self).inner_spec().miss_cost(addr as int, c, false))),
            old(self).inner_spec().ready_miss(addr as int) ==> (old(self).inner_spec().victim_base(addr as int) matches Some(v)
                ==> !final(self).inner_spec().resident(v)),
            old(self).inner_spec().ready_miss(addr as int) && old(self).inner_spec().coherent()
                ==> final(self).inner_spec().backing_spec().view() == old(self).inner_spec().backing_after_miss(addr as int),
    {
        let r = self.inner.load_u8(addr, clock);
        proof {
            assert(self.fixed_costs() == old(self).fixed_costs());
        }
        r
    }

    fn store_u8(&mut self, addr: usize, n: u8, clock: &mut Clock)
        ensures
            old(self).inner_spec().ready_hit(addr as int) ==> final(clock)@ == saturating_tick(
                old(clock)@,
                if old(self).inner_spec().is_timed() { old(self).inner_spec().timing_spec().store_hit } else { 0 },
            ) && final(self).inner_spec().backing_spec().view() == old(self).inner_spec().backing_spec().view(),
            old(self).inner_spec().ready_miss(addr as int) ==> SetAssociativeCache::<M>::miss_evicts(
                old(self).inner_spec(),
                final(self).inner_spec(),
                addr as int,
            ) && final(clock)@ >= saturating_tick(
                old(clock)@,
                if old(self).inner_spec().is_timed() { old(self).inner_spec().timing_spec().store_miss } else { 0 },
            ),
            old(self).inner_spec().ready_miss(addr as int) ==> (old(self).inner_spec().backing_spec().fixed_costs() matches Some(
                c,
            ) ==> final(clock)@ == tick_by(old(clock)@, old(self).inner_spec().miss_cost(addr as int, c, true))),
            old(self).inner_spec().ready_miss(addr as int) ==> (old(self).inner_spec().victim_base(addr as int) matches Some(v)
                ==> !final(self).inner_spec().resident(v)),
            old(self).inner_spec().ready_miss(addr as int) && old(self).inner_spec().coherent()
                ==> final(self).inner_spec().backing_spec().view() == old(self).inner_spec().backing_after_miss(addr as int),
    {
        self.inner.store_u8(addr, n, clock);
        proof {
            assert(self.fixed_costs() == old(self).fixed_costs());
        }
    }

    fn load_u16(&mut self, addr: usize, clock: &mut Clock) -> (r: u16) {
        self.inner.load_u16(addr, clock)
    }

    fn store_u16(&mut self, addr: usize, n: u16, clock: &mut Clock) {
        self.inner.store_u16(addr, n, clock)
    }

    fn load_u32(&mut self, addr: usize, clock: &mut Clock) -> (r: u32)
        ensures
            old(self).inner_spec().ready_hit(addr as int) && (addr as int) % old(self).inner_spec().line_len() + 4
                <= old(self).inner_spec().line_len() ==> final(clock)@ == saturating_tick(
                old(clock)@,
                if old(self).inner_spec().is_timed() { old(self).inner_spec().timing_spec().load_hit } else { 0 },
            ) && final(self).inner_spec().backing_spec().view() == old(self).inner_spec().backing_spec().view(),
            old(self).inner_spec().ready_miss(addr as int) ==> final(clock)@ >= saturating_tick(
                old(clock)@,
                if old(self).inner_spec().is_timed() { old(self).inner_spec().timing_spec().load_miss } else { 0 },
            ),
            old(self).inner_spec().ready_miss(addr as int) && (addr as int) % old(self).inner_spec().line_len() + 4
                <= old(self).inner_spec().line_len() ==> (old(self).inner_spec().backing_spec().fixed_costs() matches Some(
                c,
            ) ==> final(clock)@ == tick_by(old(clock)@, old(self).inner_spec().miss_cost(addr as int, c, false))),
    {
        self.inner.load_u32(addr, clock)
    }

    fn store_u32(&mut self, addr: usize, n: u32, clock: &mut Clock) {
        self.inner.store_u32(addr, n, clock)
    }

    fn peek_u8(&self, addr: usize) -> (r: u8) {
        self.inner.peek_u8(addr)
    }

    fn store_backmost_u8(&mut self, addr: usize, n: u8, clock: &mut Clock) {
        self.inner.store_backmost_u8(addr, n, clock)
    }

    fn take_invalidations(&mut self) -> (v: Vec<usize>) {
        self.inner.take_invalidations()
    }
}

impl<const ASSOCIATIVITY: usize, M: MemoryDevice> InvalidationListener for Cache<
    ASSOCIATIVITY,
    M,
> {
    /// Queues the line for removal at the start of the next access.
    fn invalidate_line(&mut self, base_addr: usize, clock: &mut Clock)
        ensures
            final(self).inner_spec().pending_invalidations() == old(self).inner_spec().pending_invalidations().push(
                base_addr,
            ),
            final(clock)@ == old(clock)@,
    {
        self.inner.invalidate_line(base_addr, clock)
    }
}

impl<M: MemoryDevice> SetAssociativeCache<M> {
    /// When the level below can reach every address below `n`, and `n` is a
    /// whole number of lines, so can this cache.
    pub proof fn lemma_accessible_below(&self, n: int)
        requires
            self.line_len() > 0,
            n >= 0,
            n % self.line_len() == 0,
            forall|b: int| 0 <= b < n ==> #[trigger] self.backing_spec().accessible(b),
        ensures
            forall|a: int| 0 <= a < n ==> #[trigger] self.accessible(a),
    {
        assert forall|a: int| 0 <= a < n implies #[trigger] self.accessible(a) by {
            let ls = self.line_len();
            lemma_base_of_props(a, ls);
            lemma_line_fits(a, ls, n);
            assert forall|k: int| 0 <= k < ls implies #[trigger] self.backing.accessible(self.base_of(a) + k) by {
                assert(0 <= self.base_of(a) + k < n);
                assert(self.backing_spec().accessible(self.base_of(a) + k));
            }
        }
    }
}

} // verus!
