use vstd::prelude::*;

use std::collections::BTreeMap;

use crate::device::Clock;
use crate::device::cache_trace::{
    CacheAccessEvent, CacheAccessKind, CacheAccessSource, CacheTrace, last_access_hit, records_access,
};
use crate::device::clock::{lemma_tick_by_twice, saturating_tick, tick_by};
use crate::device::memory::lines::{lemma_aligned_disjoint, lemma_base_of, lemma_base_of_props, overwrite, lemma_line_fits};
use crate::device::memory::table::{
    CachedLine, at, backing_frame, backing_sound, clean_match, covers, holds, holds_base,
    lemma_clean_put, lemma_clean_update_uncovered, lemma_holds_covers, lemma_overlay_hit,
    lemma_overlay_remove, lemma_overlay_update_uncovered, lemma_overlay_write, lemma_overwrite_same,
    lemma_refill_view, lemma_same_content, line_accessible, line_matches, overlay, present,
    read_line, find_in, same_content, shaped, table_wf, take_slot, put_slot, unique, write_line,
    without_lines, addr_set, lemma_without_nothing, lemma_without_twice, lemma_addr_set_step,
};
use crate::device::memory::{CacheTiming, InvalidationListener, MemoryDevice};
use crate::device::secdcp_memory::{SecurityClass, SecurityClassControl};
use crate::device::backcache_memory::xorshift;

use vstd::arithmetic::div_mod::{lemma_fundamental_div_mod, lemma_fundamental_div_mod_converse};

verus! {

broadcast use {vstd::std_specs::btree::group_btree_axioms, vstd::laws_cmp::group_laws_cmp};

/// How many logical lines the remapping layer has per physical line.
pub const DEFAULT_LOGICAL_INDEX_MULTIPLIER: usize = 8;

/// Remapping-table key of a line: its domain and its logical index.
pub open spec fn key_of(l: CachedLine) -> (u32, usize) {
    (l.rmt_id, l.logical_index)
}

/// The empty slots of `t`, in increasing order.
pub open spec fn empty_slots(t: Seq<Option<CachedLine>>) -> Seq<usize>
    decreases t.len(),
{
    if t.len() == 0 {
        Seq::empty()
    } else if t.last() is None {
        empty_slots(t.drop_last()).push((t.len() - 1) as usize)
    } else {
        empty_slots(t.drop_last())
    }
}

/// Every slot that `empty_slots` lists is an empty slot of `t`.
pub proof fn lemma_empty_slots(t: Seq<Option<CachedLine>>, k: int)
    requires
        0 <= k < empty_slots(t).len(),
        t.len() <= usize::MAX,
    ensures
        empty_slots(t).len() <= t.len(),
        0 <= empty_slots(t)[k] < t.len(),
        t[empty_slots(t)[k] as int] is None,
    decreases t.len(),
{
    if t.len() > 0 {
        let rest = empty_slots(t.drop_last());
        if t.last() is None && k == rest.len() {
            lemma_empty_slots_len(t.drop_last());
            assert(empty_slots(t) == rest.push((t.len() - 1) as usize));
            assert(empty_slots(t)[k] == (t.len() - 1) as usize);
            assert(t[t.len() - 1] is None);
        } else {
            lemma_empty_slots(t.drop_last(), k);
            let e = rest[k];
            if t.last() is None {
                assert(empty_slots(t) == rest.push((t.len() - 1) as usize));
            } else {
                assert(empty_slots(t) == rest);
            }
            assert(empty_slots(t)[k] == e);
            assert(t.drop_last()[e as int] == t[e as int]);
        }
    }
}

/// `empty_slots` lists at most as many slots as `t` has.
pub proof fn lemma_empty_slots_len(t: Seq<Option<CachedLine>>)
    ensures
        empty_slots(t).len() <= t.len(),
    decreases t.len(),
{
    if t.len() > 0 {
        lemma_empty_slots_len(t.drop_last());
    }
}

/// A first-level cache that maps each domain's lines through its own
/// remapping table onto a small fully associative array, so that domains
/// cannot evict each other's lines by address.
///
/// Each domain indexes a logical direct-mapped cache eight times larger
/// than the physical array; a resident logical line occupies a physical
/// line chosen at random.
pub struct NewCacheMemory<M: MemoryDevice> {
    line_size: usize,
    total_lines: usize,
    logical_line_count: usize,
    cache: Vec<Option<CachedLine>>,
    rmt: BTreeMap<(u32, usize), usize>,
    active_domain: SecurityClass,
    requester_pid: u32,
    requester_domain_id: u32,
    use_counter: usize,
    rng_state: u64,
    backing: M,
    timed: bool,
    timing: CacheTiming,
    trace: Option<CacheTrace>,
    pending: Vec<usize>,
}

impl<M: MemoryDevice> NewCacheMemory<M> {
    pub closed spec fn line_len(&self) -> int {
        self.line_size as int
    }

    pub closed spec fn line_count(&self) -> int {
        self.total_lines as int
    }

    pub closed spec fn is_timed(&self) -> bool {
        self.timed
    }

    /// Domain number that the current requester named, zero if none.
    pub closed spec fn requester_domain(&self) -> u32 {
        self.requester_domain_id
    }

    /// The class that the accesses that follow are attributed to.
    pub closed spec fn requester_class(&self) -> SecurityClass {
        self.active_domain
    }

    /// The process that the accesses that follow are attributed to.
    pub closed spec fn requester_pid(&self) -> u32 {
        self.requester_pid
    }

    pub closed spec fn timing_spec(&self) -> CacheTiming {
        self.timing
    }

    /// The physical lines.
    pub closed spec fn cache_slots(&self) -> Seq<Option<CachedLine>> {
        self.cache@
    }

    /// The state of the generator that picks physical lines.
    pub closed spec fn rng_spec(&self) -> u64 {
        self.rng_state
    }

    pub closed spec fn backing_spec(&self) -> M {
        self.backing
    }

    /// The events recorded so far, if the cache is traced.
    pub closed spec fn trace_spec(&self) -> Option<Seq<CacheAccessEvent>> {
        match self.trace {
            Some(t) => Some(t@),
            None => None,
        }
    }

    /// Remapping-table domain of the current requester: its domain number,
    /// or, without one, 0 for the high class and 1 for the low class.
    pub closed spec fn active_rmt(&self) -> u32 {
        if self.requester_domain_id != 0 {
            self.requester_domain_id
        } else {
            match self.active_domain {
                SecurityClass::High => 0u32,
                SecurityClass::Low => 1u32,
            }
        }
    }

    /// The physical line that domain `rmt_id` maps the logical line of `b` to.
    pub closed spec fn mapping(&self, rmt_id: u32, b: int) -> Option<usize> {
        let k = (rmt_id, self.index_of(b));
        if self.rmt@.contains_key(k) {
            Some(self.rmt@[k])
        } else {
            None
        }
    }

    /// Two remapping domains never share a physical line: where both map
    /// the logical line of `b`, they map it to different physical lines.
    pub proof fn lemma_domains_map_apart(&self, r1: u32, r2: u32, b: int)
        requires
            self.wf(),
            r1 != r2,
        ensures
            self.mapping(r1, b) is Some && self.mapping(r2, b) is Some ==> self.mapping(r1, b) != self.mapping(r2, b),
    {
        let k1 = (r1, self.index_of(b));
        let k2 = (r2, self.index_of(b));
        if self.rmt@.contains_key(k1) && self.rmt@.contains_key(k2) {
            assert(key_of(at(self.cache@, self.rmt@[k1] as int)) == k1);
            assert(key_of(at(self.cache@, self.rmt@[k2] as int)) == k2);
        }
    }

    /// Whether the current requester's domain maps the logical line of `b`
    /// to a physical line that holds it.
    pub closed spec fn hits_for_requester(&self, b: int) -> bool {
        match self.mapping(self.active_rmt(), b) {
            Some(i) => present(self.cache@, i as int) && at(self.cache@, i as int).logical_tag == self.tag_of(b),
            None => false,
        }
    }

    /// Lines the level below evicted that this cache has yet to drop.
    pub closed spec fn pending_invalidations(&self) -> Seq<usize> {
        self.pending@
    }

    /// Base address of the line held by physical line `i`, if any.
    pub closed spec fn resident_base(&self, i: int) -> Option<usize> {
        if present(self.cache@, i) {
            Some(at(self.cache@, i).base_addr)
        } else {
            None
        }
    }

    pub open spec fn base_of(&self, a: int) -> int {
        (a / self.line_len()) * self.line_len()
    }

    spec fn index_of(&self, b: int) -> usize {
        ((b / self.line_len()) % (self.logical_line_count as int)) as usize
    }

    spec fn tag_of(&self, b: int) -> usize {
        ((b / self.line_len()) / (self.logical_line_count as int)) as usize
    }

    spec fn mem_len(&self) -> int {
        self.backing.view().len() as int
    }

    spec fn shape_wf(&self) -> bool {
        &&& self.line_size > 0
        &&& self.total_lines > 0
        &&& self.logical_line_count == self.total_lines * 8
        &&& self.total_lines * 8 <= usize::MAX
        &&& self.cache@.len() == self.total_lines
    }

    spec fn lines_wf(&self) -> bool {
        &&& shaped(self.cache@, self.line_len(), self.mem_len())
        &&& forall|i: int|
            #[trigger] present(self.cache@, i) ==> {
                &&& line_accessible(self.backing, at(self.cache@, i).base_addr as int, self.line_len())
                &&& at(self.cache@, i).logical_index == self.index_of(at(self.cache@, i).base_addr as int)
                &&& at(self.cache@, i).logical_tag == self.tag_of(at(self.cache@, i).base_addr as int)
            }
    }

    /// The remapping table maps the key of every resident line to its slot,
    /// and nothing else.
    spec fn rmt_wf(&self) -> bool {
        &&& forall|i: int|
            #[trigger] present(self.cache@, i) ==> {
                &&& self.rmt@.contains_key(key_of(at(self.cache@, i)))
                &&& self.rmt@[key_of(at(self.cache@, i))] == i
            }
        &&& forall|k: (u32, usize)|
            #[trigger] self.rmt@.contains_key(k) ==> {
                &&& self.rmt@[k] < self.total_lines
                &&& present(self.cache@, self.rmt@[k] as int)
                &&& key_of(at(self.cache@, self.rmt@[k] as int)) == k
            }
    }

    spec fn state_wf(&self) -> bool {
        &&& self.shape_wf()
        &&& self.lines_wf()
        &&& self.rmt_wf()
        &&& self.backing.wf()
    }

    /// Every resident line belongs to the current requester's domain.
    spec fn single_domain(&self) -> bool {
        forall|i: int| #[trigger] present(self.cache@, i) ==> at(self.cache@, i).rmt_id == self.active_rmt()
    }

    spec fn state_coherent(&self) -> bool {
        &&& backing_sound(self.backing)
        &&& self.single_domain()
        &&& clean_match(self.cache@, self.line_len(), self.backing.view())
    }

    spec fn full_view(&self) -> Seq<u8> {
        overlay(self.cache@, self.line_len(), self.backing.view())
    }

    spec fn same_frame(&self, other: &Self) -> bool {
        &&& self.line_size == other.line_size
        &&& self.total_lines == other.total_lines
        &&& self.logical_line_count == other.logical_line_count
        &&& self.timed == other.timed
        &&& self.timing == other.timing
        &&& self.active_domain == other.active_domain
        &&& self.requester_pid == other.requester_pid
        &&& self.requester_domain_id == other.requester_domain_id
        &&& (self.trace is Some) == (other.trace is Some)
        &&& backing_frame(self.backing, other.backing)
    }
}

impl<M: MemoryDevice> NewCacheMemory<M> {
    /// The logical index and tag of an aligned base address determine it.
    proof fn lemma_index_tag_base(&self, b1: int, b2: int)
        requires
            self.shape_wf(),
            0 <= b1 <= usize::MAX,
            0 <= b2 <= usize::MAX,
            b1 % self.line_len() == 0,
            b2 % self.line_len() == 0,
            self.index_of(b1) == self.index_of(b2),
            self.tag_of(b1) == self.tag_of(b2),
        ensures
            b1 == b2,
    {
        let ls = self.line_len();
        let lc = self.logical_line_count as int;
        assert(lc > 0) by (nonlinear_arith)
            requires
                lc == self.total_lines * 8,
                self.total_lines > 0,
        ;
        lemma_fundamental_div_mod(b1, ls);
        lemma_fundamental_div_mod(b2, ls);
        let q1 = b1 / ls;
        let q2 = b2 / ls;
        assert(q1 >= 0 && q2 >= 0) by (nonlinear_arith)
            requires
                b1 >= 0,
                b2 >= 0,
                ls > 0,
                q1 == b1 / ls,
                q2 == b2 / ls,
        ;
        lemma_fundamental_div_mod(q1, lc);
        lemma_fundamental_div_mod(q2, lc);
        assert(q1 % lc < lc && q1 / lc >= 0) by (nonlinear_arith)
            requires
                q1 >= 0,
                lc > 0,
        ;
        assert(q2 % lc < lc && q2 / lc >= 0) by (nonlinear_arith)
            requires
                q2 >= 0,
                lc > 0,
        ;
        assert(q1 / lc <= q1 && q2 / lc <= q2) by (nonlinear_arith)
            requires
                q1 >= 0,
                q2 >= 0,
                lc > 0,
        ;
        assert(q1 <= b1 && q2 <= b2) by (nonlinear_arith)
            requires
                q1 == b1 / ls,
                q2 == b2 / ls,
                ls > 0,
                b1 >= 0,
                b2 >= 0,
        ;
        assert(q1 % lc == q2 % lc);
        assert(q1 / lc == q2 / lc);
        assert(q1 == q2);
    }

    /// With every line in one domain, no two slots hold the same line.
    proof fn lemma_unique(&self)
        requires
            self.state_wf(),
            self.single_domain(),
        ensures
            table_wf(self.cache@, self.line_len(), self.mem_len()),
    {
        let t = self.cache@;
        assert forall|i: int, j: int|
            #![trigger present(t, i), present(t, j)]
            present(t, i) && present(t, j) && at(t, i).base_addr == at(t, j).base_addr implies i == j by {
            assert(self.rmt@[key_of(at(t, i))] == i);
            assert(self.rmt@[key_of(at(t, j))] == j);
        }
    }

    /// A line of the current domain whose logical index the table does not
    /// map is not resident.
    proof fn lemma_unmapped(&self, b: int)
        requires
            self.state_wf(),
            self.single_domain(),
            !self.rmt@.contains_key((self.active_rmt(), self.index_of(b))),
        ensures
            !holds_base(self.cache@, b),
    {
        if holds_base(self.cache@, b) {
            let i = choose|i: int| holds(self.cache@, i, b);
            assert(present(self.cache@, i));
        }
    }

    /// A line of the current domain whose logical index maps to a slot
    /// holding another tag is not resident.
    proof fn lemma_mapped_other(&self, b: int, idx: int)
        requires
            self.state_wf(),
            self.single_domain(),
            b >= 0,
            b % self.line_len() == 0,
            self.rmt@.contains_key((self.active_rmt(), self.index_of(b))),
            self.rmt@[(self.active_rmt(), self.index_of(b))] == idx,
            present(self.cache@, idx),
            at(self.cache@, idx).logical_tag != self.tag_of(b),
        ensures
            !holds_base(self.cache@, b),
    {
        if holds_base(self.cache@, b) {
            let i = choose|i: int| holds(self.cache@, i, b);
            assert(present(self.cache@, i));
            assert(self.rmt@[key_of(at(self.cache@, i))] == i);
        }
    }

    /// A slot that the current domain's index maps to, holding the tag of
    /// `b`, holds `b`.
    proof fn lemma_mapped_hit(&self, b: int, idx: int)
        requires
            self.state_wf(),
            b >= 0,
            b <= usize::MAX,
            b % self.line_len() == 0,
            present(self.cache@, idx),
            at(self.cache@, idx).logical_index == self.index_of(b),
            at(self.cache@, idx).logical_tag == self.tag_of(b),
        ensures
            holds(self.cache@, idx, b),
    {
        let l = at(self.cache@, idx);
        assert(present(self.cache@, idx));
        self.lemma_index_tag_base(l.base_addr as int, b);
    }
}

/// What a traced cache records of an evicted line: owner class, process,
/// domain, base address and whether it was dirty.
pub type EvictedSummary = (SecurityClass, u32, u32, usize, bool);

/// Whether the last event of `es` says that the access used physical line
/// `i` and displaced `displaced` from it: its owner, process, domain and
/// base, and one write-back where that line was dirty.
pub open spec fn reports_eviction(es: Seq<CacheAccessEvent>, i: usize, displaced: Option<CachedLine>) -> bool {
    &&& es.last().set == Some(i)
    &&& es.last().evicted_owner == match displaced {
        Some(l) => Some(l.owner),
        None => None,
    }
    &&& es.last().evicted_pid == match displaced {
        Some(l) => Some(l.owner_pid),
        None => None,
    }
    &&& es.last().evicted_domain == match displaced {
        Some(l) => Some(l.owner_domain),
        None => None,
    }
    &&& es.last().evicted_addr == match displaced {
        Some(l) => Some(l.base_addr),
        None => None,
    }
    &&& es.last().writebacks == match displaced {
        Some(l) => if l.dirty { 1u64 } else { 0u64 },
        None => 0u64,
    }
}

/// The summary of `l` for a trace.
pub open spec fn summary_of(l: CachedLine) -> EvictedSummary {
    (l.owner, l.owner_pid, l.owner_domain, l.base_addr, l.dirty)
}

impl<M: MemoryDevice> NewCacheMemory<M> {
    fn line_base(&self, addr: usize) -> (b: usize)
        requires
            self.shape_wf(),
        ensures
            b == self.base_of(addr as int),
            b <= addr,
    {
        proof {
            lemma_base_of_props(addr as int, self.line_len());
        }
        (addr / self.line_size) * self.line_size
    }

    fn logical_index_and_tag(&self, base_addr: usize) -> (r: (usize, usize))
        requires
            self.shape_wf(),
        ensures
            r.0 == self.index_of(base_addr as int),
            r.1 == self.tag_of(base_addr as int),
    {
        let line_number = base_addr / self.line_size;
        proof {
            assert(self.logical_line_count > 0) by (nonlinear_arith)
                requires
                    self.logical_line_count == self.total_lines * 8,
                    self.total_lines > 0,
            ;
        }
        (line_number % self.logical_line_count, line_number / self.logical_line_count)
    }

    fn active_rmt_id(&self) -> (r: u32)
        ensures
            r == self.active_rmt(),
    {
        if self.requester_domain_id != 0 {
            self.requester_domain_id
        } else {
            match self.active_domain {
                SecurityClass::High => 0,
                SecurityClass::Low => 1,
            }
        }
    }

    fn next_use_counter(&mut self) -> (v: usize)
        ensures
            v == old(self).use_counter,
            *final(self) == (Self { use_counter: final(self).use_counter, ..*old(self) }),
    {
        let v = self.use_counter;
        self.use_counter = self.use_counter.saturating_add(1);
        v
    }

    fn charge(&self, n: u64, clock: &mut Clock)
        ensures
            final(clock)@ == saturating_tick(old(clock)@, if self.timed { n } else { 0 }),
    {
        if self.timed {
            clock.advance(n);
        }
    }

    fn random_u64(&mut self) -> (r: u64)
        ensures
            r == xorshift(old(self).rng_state),
            *final(self) == (Self { rng_state: r, ..*old(self) }),
    {
        let mut state = self.rng_state;
        state = state ^ (state << 13u64);
        state = state ^ (state >> 7u64);
        state = state ^ (state << 17u64);
        self.rng_state = state;
        state
    }

    fn random_index(&mut self, len: usize) -> (r: usize)
        requires
            len > 0,
        ensures
            r < len,
            final(self).rng_state == xorshift(old(self).rng_state),
            r == (xorshift(old(self).rng_state) as usize) % len,
            *final(self) == (Self { rng_state: final(self).rng_state, ..*old(self) }),
    {
        let v = self.random_u64();
        (#[verifier::truncate] (v as usize)) % len
    }

    /// The slot that the current domain maps the logical line of `base` to.
    fn lookup_active_index(&mut self, base: usize) -> (r: Option<usize>)
        requires
            old(self).state_wf(),
        ensures
            *final(self) == *old(self),
            r == old(self).mapping(old(self).active_rmt(), base as int),
            match r {
                Some(i) => {
                    &&& i < old(self).total_lines
                    &&& present(old(self).cache@, i as int)
                    &&& at(old(self).cache@, i as int).rmt_id == old(self).active_rmt()
                    &&& at(old(self).cache@, i as int).logical_index == old(self).index_of(base as int)
                },
                None => !old(self).rmt@.contains_key((old(self).active_rmt(), old(self).index_of(base as int))),
            },
    {
        let rmt_id = self.active_rmt_id();
        let (logical_index, _) = self.logical_index_and_tag(base);
        let key = (rmt_id, logical_index);
        let mapped = match self.rmt.get(&key) {
            Some(i) => *i,
            None => {
                return None;
            },
        };
        proof {
            assert(self.rmt@.contains_key(key));
        }
        let is_valid_index_match = match &self.cache[mapped] {
            Some(line) => line.rmt_id == rmt_id && line.logical_index == logical_index,
            None => false,
        };
        if is_valid_index_match {
            Some(mapped)
        } else {
            proof {
                assert(false);
            }
            None
        }
    }

    /// The slot to install a new line in: an empty one at random if any,
    /// else any at random.
    fn choose_install_index(&mut self) -> (idx: usize)
        requires
            old(self).shape_wf(),
        ensures
            idx < old(self).total_lines,
            final(self).rng_state == xorshift(old(self).rng_state),
            ({
                let empty = empty_slots(old(self).cache@);
                let pick = xorshift(old(self).rng_state) as usize;
                if empty.len() > 0 {
                    idx == empty[(pick % (empty.len() as usize)) as int]
                } else {
                    idx == pick % old(self).total_lines
                }
            }),
            *final(self) == (Self { rng_state: final(self).rng_state, ..*old(self) }),
    {
        let mut empty: Vec<usize> = Vec::new();
        let mut i: usize = 0;
        while i < self.cache.len()
            invariant
                self.shape_wf(),
                i <= self.cache@.len(),
                forall|k: int| 0 <= k < empty@.len() ==> #[trigger] empty@[k] < self.total_lines,
                empty@ == empty_slots(self.cache@.subrange(0, i as int)),
            decreases self.cache@.len() - i,
        {
            proof {
                assert(self.cache@.subrange(0, i + 1).drop_last() =~= self.cache@.subrange(0, i as int));
            }
            if self.cache[i].is_none() {
                empty.push(i);
            }
            i = i + 1;
        }
        proof {
            assert(self.cache@.subrange(0, self.cache@.len() as int) =~= self.cache@);
        }
        if empty.len() > 0 {
            let r = self.random_index(empty.len());
            empty[r]
        } else {
            self.random_index(self.total_lines)
        }
    }

    /// Reads the line at `base` from the level below, owned by the current
    /// requester.
    fn fill_line_from_backing(&mut self, base: usize, owner: SecurityClass, clock: &mut Clock) -> (l: CachedLine)
        requires
            old(self).state_wf(),
            line_accessible(old(self).backing, base as int, old(self).line_len()),
        ensures
            final(self).state_wf(),
            *final(self) == (Self {
                backing: final(self).backing,
                pending: final(self).pending,
                use_counter: final(self).use_counter,
                ..*old(self)
            }),
            final(self).same_frame(old(self)),
            final(clock)@ >= old(clock)@,
            old(self).backing.fixed_costs() matches Some(c) ==> final(clock)@ == tick_by(old(clock)@, old(self).line_len() * c.0),
            l.base_addr == base,
            l.data@.len() == old(self).line_len(),
            !l.dirty,
            l.rmt_id == old(self).active_rmt(),
            l.logical_index == old(self).index_of(base as int),
            l.logical_tag == old(self).tag_of(base as int),
            l.owner == owner,
            l.owner_pid == old(self).requester_pid,
            l.owner_domain == old(self).requester_domain_id,
            old(self).state_coherent() ==> {
                &&& final(self).state_coherent()
                &&& final(self).backing.view() == old(self).backing.view()
                &&& forall|k: int| 0 <= k < old(self).line_len() ==> #[trigger] l.data@[k] == old(self).backing.view()[base + k]
            },
    {
        let (logical_index, logical_tag) = self.logical_index_and_tag(base);
        let data = read_line(&mut self.backing, &mut self.pending, base, self.line_size, clock);
        let rmt_id = self.active_rmt_id();
        let last_used = self.next_use_counter();
        proof {
            self.lemma_lines_backing(*old(self));
        }
        CachedLine {
            base_addr: base,
            data,
            dirty: false,
            last_used,
            used: false,
            owner,
            owner_pid: self.requester_pid,
            owner_domain: self.requester_domain_id,
            rmt_id,
            logical_index,
            logical_tag,
        }
    }

    /// Lines stay well formed over a backing whose accessible addresses and
    /// size are kept.
    proof fn lemma_lines_backing(&self, other: Self)
        requires
            other.lines_wf(),
            self.cache@ == other.cache@,
            self.line_size == other.line_size,
            self.logical_line_count == other.logical_line_count,
            forall|b: int| #[trigger] self.backing.accessible(b) == other.backing.accessible(b),
            self.backing.view().len() == other.backing.view().len(),
        ensures
            self.lines_wf(),
    {
        assert forall|i: int| #[trigger] present(self.cache@, i) implies {
            &&& line_accessible(self.backing, at(self.cache@, i).base_addr as int, self.line_len())
            &&& at(self.cache@, i).logical_index == self.index_of(at(self.cache@, i).base_addr as int)
            &&& at(self.cache@, i).logical_tag == self.tag_of(at(self.cache@, i).base_addr as int)
        } by {
            assert(line_accessible(other.backing, at(other.cache@, i).base_addr as int, other.line_len()));
            assert forall|k: int| 0 <= k < self.line_len() implies #[trigger] self.backing.accessible(at(self.cache@, i).base_addr + k) by {
                assert(other.backing.accessible(at(other.cache@, i).base_addr + k));
            }
        }
    }
}

impl<M: MemoryDevice> NewCacheMemory<M> {
    /// Lines stay well formed when slot `idx` takes a well-formed line, over
    /// a backing whose accessible addresses and size are kept.
    proof fn lemma_lines_put(&self, other: Self, idx: int, l: CachedLine)
        requires
            other.lines_wf(),
            self.cache@ == other.cache@.update(idx, Some(l)),
            0 <= idx < other.cache@.len(),
            self.line_size == other.line_size,
            self.logical_line_count == other.logical_line_count,
            forall|b: int| #[trigger] self.backing.accessible(b) == other.backing.accessible(b),
            self.backing.view().len() == other.backing.view().len(),
            l.data@.len() == self.line_len(),
            (l.base_addr as int) % self.line_len() == 0,
            l.base_addr + self.line_len() <= self.mem_len(),
            line_accessible(other.backing, l.base_addr as int, self.line_len()),
            l.logical_index == self.index_of(l.base_addr as int),
            l.logical_tag == self.tag_of(l.base_addr as int),
        ensures
            self.lines_wf(),
    {
        assert forall|i: int| #[trigger] present(self.cache@, i) implies {
            &&& at(self.cache@, i).data@.len() == self.line_len()
            &&& (at(self.cache@, i).base_addr as int) % self.line_len() == 0
            &&& at(self.cache@, i).base_addr + self.line_len() <= self.mem_len()
        } by {
            if i != idx {
                assert(present(other.cache@, i));
            }
        }
        assert forall|i: int| #[trigger] present(self.cache@, i) implies {
            &&& line_accessible(self.backing, at(self.cache@, i).base_addr as int, self.line_len())
            &&& at(self.cache@, i).logical_index == self.index_of(at(self.cache@, i).base_addr as int)
            &&& at(self.cache@, i).logical_tag == self.tag_of(at(self.cache@, i).base_addr as int)
        } by {
            let b = at(self.cache@, i).base_addr as int;
            if i != idx {
                assert(present(other.cache@, i));
                assert(line_accessible(other.backing, b, other.line_len()));
            }
            assert forall|k: int| 0 <= k < self.line_len() implies #[trigger] self.backing.accessible(b + k) by {
                assert(other.backing.accessible(b + k));
            }
        }
    }

    /// Puts `line` into slot `idx` and maps its key there; the line it
    /// replaces loses its mapping and is written back when dirty.
    fn install_line(&mut self, idx: usize, line: CachedLine, clock: &mut Clock) -> (evicted: Option<CachedLine>)
        requires
            old(self).state_wf(),
            idx < old(self).total_lines,
            line.data@.len() == old(self).line_len(),
            (line.base_addr as int) % old(self).line_len() == 0,
            line.base_addr + old(self).line_len() <= old(self).mem_len(),
            line_accessible(old(self).backing, line.base_addr as int, old(self).line_len()),
            line.logical_index == old(self).index_of(line.base_addr as int),
            line.logical_tag == old(self).tag_of(line.base_addr as int),
            old(self).rmt@.contains_key(key_of(line)) ==> old(self).rmt@[key_of(line)] == idx,
        ensures
            final(self).state_wf(),
            final(self).same_frame(old(self)),
            final(self).use_counter == old(self).use_counter,
            final(self).trace == old(self).trace,
            final(self).cache@ == old(self).cache@.update(idx as int, Some(line)),
            final(self).rmt@.contains_key(key_of(line)),
            final(self).rmt@[key_of(line)] == idx,
            evicted == old(self).cache@[idx as int],
            final(clock)@ >= old(clock)@,
            old(self).cache@[idx as int] is None ==> final(clock)@ == old(clock)@,
            old(self).state_coherent() && line.rmt_id == old(self).active_rmt() && !holds_base(
                old(self).cache@,
                line.base_addr as int,
            ) && (!line.dirty ==> forall|k: int|
                0 <= k < old(self).line_len() ==> #[trigger] line.data@[k] == old(self).backing.view()[line.base_addr + k])
                ==> {
                &&& final(self).state_coherent()
                &&& final(self).full_view() == overwrite(old(self).full_view(), line.base_addr as int, line.data@)
            },
    {
        let ghost s0 = *self;
        let ghost l = line;
        let ghost ls = self.line_len();
        let ghost n = self.mem_len();
        let key = (line.rmt_id, line.logical_index);
        let evicted = take_slot(&mut self.cache, idx);
        put_slot(&mut self.cache, idx, line);
        proof {
            assert(self.cache@ =~= s0.cache@.update(idx as int, Some(l)));
        }
        let ghost s1 = *self;
        match &evicted {
            Some(old_line) => {
                self.rmt.remove(&(old_line.rmt_id, old_line.logical_index));
                proof {
                    assert(present(s0.cache@, idx as int));
                    assert(line_accessible(s0.backing, old_line.base_addr as int, ls));
                }
                if old_line.dirty {
                    write_line(&mut self.backing, &mut self.pending, old_line.base_addr, &old_line.data, clock);
                    self.charge(self.timing.write_back, clock);
                }
            },
            None => {},
        }
        let ghost s2 = *self;
        self.rmt.insert(key, idx);
        proof {
            self.lemma_lines_put(s0, idx as int, l);
            let c0 = s0.cache@;
            let c2 = self.cache@;
            assert forall|i: int| #[trigger] present(c2, i) implies {
                &&& self.rmt@.contains_key(key_of(at(c2, i)))
                &&& self.rmt@[key_of(at(c2, i))] == i
            } by {
                if i != idx {
                    assert(present(c0, i));
                    assert(s0.rmt@[key_of(at(c0, i))] == i);
                    if present(c0, idx as int) {
                        assert(key_of(at(c0, i)) != key_of(at(c0, idx as int)));
                    }
                }
            }
            assert forall|k: (u32, usize)| #[trigger] self.rmt@.contains_key(k) implies {
                &&& self.rmt@[k] < self.total_lines
                &&& present(c2, self.rmt@[k] as int)
                &&& key_of(at(c2, self.rmt@[k] as int)) == k
            } by {
                if k != key {
                    assert(s0.rmt@.contains_key(k));
                    let j = s0.rmt@[k];
                    assert(present(c0, j as int));
                    if j == idx {
                        assert(present(c0, idx as int));
                    }
                }
            }
            if s0.state_coherent() && l.rmt_id == s0.active_rmt() && !holds_base(c0, l.base_addr as int)
                && (!l.dirty ==> forall|k: int|
                0 <= k < ls ==> #[trigger] l.data@[k] == s0.backing.view()[l.base_addr + k]) {
                s0.lemma_unique();
                let m0 = s0.backing.view();
                let lower2 = if present(c0, idx as int) {
                    overwrite(m0, at(c0, idx as int).base_addr as int, at(c0, idx as int).data@)
                } else {
                    m0
                };
                lemma_refill_view(c0, ls, n, m0, lower2, idx as int, l);
                if present(c0, idx as int) {
                    let e = at(c0, idx as int);
                    lemma_overlay_remove(c0, ls, n, m0, idx as int);
                    if !e.dirty {
                        assert(line_matches(c0, ls, m0, idx as int));
                        lemma_overwrite_same(m0, e.base_addr as int, e.data@);
                    }
                    let t1 = c0.update(idx as int, None);
                    assert(c2 =~= t1.update(idx as int, Some(l)));
                    assert(e.base_addr != l.base_addr) by {
                        assert(holds(c0, idx as int, e.base_addr as int));
                    }
                    lemma_aligned_disjoint(e.base_addr as int, l.base_addr as int, ls);
                    lemma_clean_put(t1, ls, self.backing.view(), idx as int, l);
                } else {
                    lemma_clean_put(c0, ls, m0, idx as int, l);
                }
            }
        }
        evicted
    }
}

impl<M: MemoryDevice> NewCacheMemory<M> {
    proof fn lemma_frame_trans(s1: Self, s2: Self, s3: Self)
        requires
            s2.same_frame(&s1),
            s3.same_frame(&s2),
        ensures
            s3.same_frame(&s1),
    {
        assert forall|b: int| #[trigger] s3.backing.accessible(b) == s1.backing.accessible(b) by {
            assert(s2.backing.accessible(b) == s1.backing.accessible(b));
        }
        assert forall|b: int| s1.backing.exclusive(b) implies #[trigger] s3.backing.exclusive(b) by {
            assert(s2.backing.exclusive(b));
        }
    }

    /// Emptying slot `idx` keeps the lines and the remapping table well
    /// formed once the slot's key is unmapped.
    proof fn lemma_remove_wf(s0: Self, s1: Self, idx: int)
        requires
            s0.state_wf(),
            present(s0.cache@, idx),
            s1.cache@ == s0.cache@.update(idx, None),
            s1.rmt@ == s0.rmt@.remove(key_of(at(s0.cache@, idx))),
            s1.line_size == s0.line_size,
            s1.total_lines == s0.total_lines,
            s1.logical_line_count == s0.logical_line_count,
            backing_frame(s1.backing, s0.backing),
        ensures
            s1.state_wf(),
    {
        let c0 = s0.cache@;
        let c1 = s1.cache@;
        let ls = s0.line_len();
        assert forall|i: int| #[trigger] present(c1, i) implies {
            &&& at(c1, i).data@.len() == ls
            &&& (at(c1, i).base_addr as int) % ls == 0
            &&& at(c1, i).base_addr + ls <= s1.mem_len()
        } by {
            assert(present(c0, i));
        }
        assert forall|i: int| #[trigger] present(c1, i) implies {
            &&& line_accessible(s1.backing, at(c1, i).base_addr as int, s1.line_len())
            &&& at(c1, i).logical_index == s1.index_of(at(c1, i).base_addr as int)
            &&& at(c1, i).logical_tag == s1.tag_of(at(c1, i).base_addr as int)
        } by {
            assert(present(c0, i));
            assert(line_accessible(s0.backing, at(c0, i).base_addr as int, ls));
            assert forall|k: int| 0 <= k < ls implies #[trigger] s1.backing.accessible(at(c1, i).base_addr + k) by {
                assert(s0.backing.accessible(at(c0, i).base_addr + k));
            }
        }
        assert forall|i: int| #[trigger] present(c1, i) implies {
            &&& s1.rmt@.contains_key(key_of(at(c1, i)))
            &&& s1.rmt@[key_of(at(c1, i))] == i
        } by {
            assert(present(c0, i));
            assert(s0.rmt@[key_of(at(c0, i))] == i);
            assert(s0.rmt@[key_of(at(c0, idx))] == idx);
        }
        assert forall|k: (u32, usize)| #[trigger] s1.rmt@.contains_key(k) implies {
            &&& s1.rmt@[k] < s1.total_lines
            &&& present(c1, s1.rmt@[k] as int)
            &&& key_of(at(c1, s1.rmt@[k] as int)) == k
        } by {
            assert(s0.rmt@.contains_key(k));
        }
    }

    /// Empties slot `idx`, unmapping its key and writing the line back when
    /// dirty; returns whether it was written back.
    fn remove_slot(&mut self, idx: usize, clock: &mut Clock) -> (wrote_back: bool)
        requires
            old(self).state_wf(),
            idx < old(self).total_lines,
            present(old(self).cache@, idx as int),
        ensures
            final(self).state_wf(),
            final(self).same_frame(old(self)),
            final(self).use_counter == old(self).use_counter,
            final(self).rng_state == old(self).rng_state,
            final(self).trace == old(self).trace,
            final(self).cache@ == old(self).cache@.update(idx as int, None),
            final(self).rmt@ == old(self).rmt@.remove(key_of(at(old(self).cache@, idx as int))),
            wrote_back == at(old(self).cache@, idx as int).dirty,
            final(clock)@ >= old(clock)@,
            old(self).state_coherent() ==> {
                &&& final(self).state_coherent()
                &&& final(self).full_view() == old(self).full_view()
            },
    {
        let ghost s0 = *self;
        let slot = take_slot(&mut self.cache, idx);
        match slot {
            Some(line) => {
                proof {
                    assert(present(s0.cache@, idx as int));
                    assert(line_accessible(s0.backing, line.base_addr as int, s0.line_len()));
                }
                self.rmt.remove(&(line.rmt_id, line.logical_index));
                if line.dirty {
                    write_line(&mut self.backing, &mut self.pending, line.base_addr, &line.data, clock);
                    self.charge(self.timing.write_back, clock);
                }
                proof {
                    Self::lemma_remove_wf(s0, *self, idx as int);
                    if s0.state_coherent() {
                        s0.lemma_unique();
                        lemma_overlay_remove(s0.cache@, s0.line_len(), s0.mem_len(), s0.backing.view(), idx as int);
                    }
                }
                line.dirty
            },
            None => {
                proof {
                    assert(false);
                }
                false
            },
        }
    }

    /// Drops every copy of the line `base`, in whichever domain holds it.
    fn invalidate_all_copies(&mut self, base: usize, clock: &mut Clock)
        requires
            old(self).state_wf(),
        ensures
            final(self).state_wf(),
            final(self).same_frame(old(self)),
            final(self).use_counter == old(self).use_counter,
            final(self).rng_state == old(self).rng_state,
            final(self).trace == old(self).trace,
            forall|i: int| !#[trigger] holds(final(self).cache@, i, base as int),
            forall|i: int| #[trigger] present(final(self).cache@, i) ==> present(old(self).cache@, i)
                && at(final(self).cache@, i) == at(old(self).cache@, i),
            final(self).cache@ == without_lines(old(self).cache@, set![base as int]),
            forall|k: (u32, usize)| #[trigger] final(self).rmt@.contains_key(k) == (old(self).rmt@.contains_key(k)
                && !holds(old(self).cache@, old(self).rmt@[k] as int, base as int)),
            forall|k: (u32, usize)| #[trigger] final(self).rmt@.contains_key(k) ==> final(self).rmt@[k] == old(
                self,
            ).rmt@[k],
            final(clock)@ >= old(clock)@,
            old(self).state_coherent() ==> {
                &&& final(self).state_coherent()
                &&& final(self).full_view() == old(self).full_view()
            },
    {
        let mut removed_any = false;
        let mut i: usize = 0;
        while i < self.cache.len()
            invariant
                self.state_wf(),
                self.same_frame(old(self)),
                self.use_counter == old(self).use_counter,
                self.rng_state == old(self).rng_state,
                self.trace == old(self).trace,
                i <= self.cache@.len(),
                forall|j: int| 0 <= j < i ==> !#[trigger] holds(self.cache@, j, base as int),
                forall|j: int| #[trigger] present(self.cache@, j) ==> present(old(self).cache@, j)
                    && at(self.cache@, j) == at(old(self).cache@, j),
                self.cache@.len() == old(self).cache@.len(),
                forall|j: int| 0 <= j < i ==> #[trigger] self.cache@[j] == without_lines(
                    old(self).cache@,
                    set![base as int],
                )[j],
                forall|j: int| i <= j < self.cache@.len() ==> #[trigger] self.cache@[j] == old(self).cache@[j],
                forall|k: (u32, usize)| #[trigger] self.rmt@.contains_key(k) == (old(self).rmt@.contains_key(k)
                    && !(old(self).rmt@[k] < i && holds(old(self).cache@, old(self).rmt@[k] as int, base as int))),
                forall|k: (u32, usize)| #[trigger] self.rmt@.contains_key(k) ==> self.rmt@[k] == old(self).rmt@[k],
                clock@ >= old(clock)@,
                old(self).state_coherent() ==> {
                    &&& self.state_coherent()
                    &&& self.full_view() == old(self).full_view()
                },
            decreases self.cache@.len() - i,
        {
            let hit = match &self.cache[i] {
                Some(line) => line.base_addr == base,
                None => false,
            };
            if hit {
                let ghost s0 = *self;
                self.remove_slot(i, clock);
                proof {
                    let key_i = key_of(at(s0.cache@, i as int));
                    assert(present(s0.cache@, i as int));
                    assert(s0.rmt@.contains_key(key_i) && s0.rmt@[key_i] == i);
                    assert forall|k: (u32, usize)| #[trigger] self.rmt@.contains_key(k) == (old(self).rmt@.contains_key(k)
                        && !(old(self).rmt@[k] < i + 1 && holds(old(self).cache@, old(self).rmt@[k] as int, base as int))) by {
                        if s0.rmt@.contains_key(k) {
                            assert(key_of(at(s0.cache@, s0.rmt@[k] as int)) == k);
                            if s0.rmt@[k] == i {
                                assert(k == key_i);
                            }
                            if k == key_i {
                                assert(old(self).rmt@[k] == i);
                            }
                        }
                    }
                    Self::lemma_frame_trans(*old(self), s0, *self);
                    assert forall|j: int| 0 <= j < i + 1 implies !#[trigger] holds(self.cache@, j, base as int) by {
                        if j != i {
                            assert(!holds(s0.cache@, j, base as int));
                        }
                    }
                    assert forall|j: int| #[trigger] present(self.cache@, j) implies present(old(self).cache@, j)
                        && at(self.cache@, j) == at(old(self).cache@, j) by {
                        assert(present(s0.cache@, j));
                    }
                }
                removed_any = true;
            } else {
                proof {
                    assert(!holds(self.cache@, i as int, base as int));
                }
            }
            i = i + 1;
        }
        proof {
            assert(self.cache@ =~= without_lines(old(self).cache@, set![base as int]));
        }
        if removed_any {
            self.charge(self.timing.invalidation_apply, clock);
        }
    }

    /// Drops the lines that the level below has evicted since the last access.
    fn apply_pending(&mut self, clock: &mut Clock)
        requires
            old(self).state_wf(),
        ensures
            final(self).state_wf(),
            final(self).same_frame(old(self)),
            final(self).use_counter == old(self).use_counter,
            final(self).rng_state == old(self).rng_state,
            final(self).trace == old(self).trace,
            final(clock)@ >= old(clock)@,
            final(self).cache@ == without_lines(old(self).cache@, addr_set(old(self).pending@)),
            old(self).pending@.len() == 0 ==> final(self).cache@ == old(self).cache@ && final(self).rmt@ == old(self).rmt@
                && final(clock)@ == old(clock)@ && final(self).backing == old(self).backing,
            old(self).state_coherent() ==> {
                &&& final(self).state_coherent()
                &&& final(self).full_view() == old(self).full_view()
            },
    {
        let mut addrs: Vec<usize> = Vec::new();
        std::mem::swap(&mut addrs, &mut self.pending);
        proof {
            lemma_without_nothing(old(self).cache@);
            if addrs@.len() > 0 {
                lemma_addr_set_step(addrs@, 0);
            } else {
                assert(addrs@.subrange(0, 0) =~= addrs@);
            }
        }
        let mut k: usize = 0;
        while k < addrs.len()
            invariant
                addrs@ == old(self).pending@,
                self.cache@ == without_lines(old(self).cache@, addr_set(addrs@.subrange(0, k as int))),
                addrs@.len() == old(self).pending@.len(),
                addrs@.len() == 0 ==> self.cache@ == old(self).cache@ && self.rmt@ == old(self).rmt@ && clock@ == old(clock)@
                    && self.backing == old(self).backing,
                self.state_wf(),
                self.same_frame(old(self)),
                self.use_counter == old(self).use_counter,
                self.rng_state == old(self).rng_state,
                self.trace == old(self).trace,
                k <= addrs@.len(),
                clock@ >= old(clock)@,
                old(self).state_coherent() ==> {
                    &&& self.state_coherent()
                    &&& self.full_view() == old(self).full_view()
                },
            decreases addrs@.len() - k,
        {
            let ghost s0 = *self;
            self.invalidate_all_copies(addrs[k], clock);
            proof {
                Self::lemma_frame_trans(*old(self), s0, *self);
                lemma_addr_set_step(addrs@, k as int);
                lemma_without_twice(
                    old(self).cache@,
                    addr_set(addrs@.subrange(0, k as int)),
                    set![addrs@[k as int] as int],
                );
            }
            k = k + 1;
        }
        proof {
            assert(addrs@.subrange(0, addrs@.len() as int) =~= addrs@);
        }
    }

    /// Whether the line of `a` lies in memory the level below can access.
    pub closed spec fn can_access(&self, a: int) -> bool {
        &&& 0 <= a
        &&& line_accessible(self.backing, self.base_of(a), self.line_len())
    }

    proof fn lemma_can_access(&self, a: int)
        requires
            self.state_wf(),
            self.can_access(a),
        ensures
            0 <= a < self.mem_len(),
            self.base_of(a) >= 0,
            self.base_of(a) % self.line_len() == 0,
            self.base_of(a) <= a < self.base_of(a) + self.line_len(),
            self.base_of(a) + self.line_len() <= self.mem_len(),
            self.mem_len() <= usize::MAX,
    {
        let ls = self.line_len();
        lemma_base_of_props(a, ls);
        let b = self.base_of(a);
        assert(self.backing.accessible(b + (a - b)));
        assert(self.backing.accessible(b + (ls - 1)));
        self.backing.lemma_accessible_in_range(b + (ls - 1));
        self.backing.lemma_accessible_in_range(a);
    }

    /// Appends an access to the trace, if the cache is traced.
    fn record_access(
        &mut self,
        requester: SecurityClass,
        kind: CacheAccessKind,
        addr: usize,
        hit: bool,
        slot: usize,
        evicted: &Option<CachedLine>,
    )
        ensures
            *final(self) == (Self { trace: final(self).trace, ..*old(self) }),
            (final(self).trace is Some) == (old(self).trace is Some),
            final(self).trace_spec() == match old(self).trace_spec() {
                Some(events) => Some(events.push(CacheAccessEvent {
                    architecture: "newcache",
                    requester,
                    requester_pid: old(self).requester_pid,
                    requester_domain: old(self).requester_domain_id,
                    kind,
                    addr,
                    set: Some(slot),
                    hit,
                    source: if hit { CacheAccessSource::L1D } else { CacheAccessSource::Lower },
                    evicted_owner: match evicted { Some(l) => Some(l.owner), None => None },
                    evicted_pid: match evicted { Some(l) => Some(l.owner_pid), None => None },
                    evicted_domain: match evicted { Some(l) => Some(l.owner_domain), None => None },
                    evicted_addr: match evicted { Some(l) => Some(l.base_addr), None => None },
                    slice: None,
                    writebacks: match evicted { Some(l) => if l.dirty { 1u64 } else { 0u64 }, None => 0u64 },
                })),
                None => None,
            },
    {
        let event = CacheAccessEvent {
            architecture: "newcache",
            requester,
            requester_pid: self.requester_pid,
            requester_domain: self.requester_domain_id,
            kind,
            addr,
            set: Some(slot),
            hit,
            source: if hit { CacheAccessSource::L1D } else { CacheAccessSource::Lower },
            evicted_owner: match evicted { Some(l) => Some(l.owner), None => None },
            evicted_pid: match evicted { Some(l) => Some(l.owner_pid), None => None },
            evicted_domain: match evicted { Some(l) => Some(l.owner_domain), None => None },
            evicted_addr: match evicted { Some(l) => Some(l.base_addr), None => None },
            slice: None,
            writebacks: match evicted { Some(l) => if l.dirty { 1u64 } else { 0u64 }, None => 0u64 },
        };
        match &mut self.trace {
            Some(t) => t.record(event),
            None => {},
        }
    }
}

/// A line that no slot holds shows through the overlay as the level below
/// has it, so writing it back over the overlay changes nothing.
pub(crate) proof fn lemma_unheld_line(t: Seq<Option<CachedLine>>, ls: int, n: int, v: Seq<u8>, b: int, d: Seq<u8>)
    requires
        table_wf(t, ls, n),
        !holds_base(t, b),
        b >= 0,
        b % ls == 0,
        b + ls <= n,
        v.len() == n,
        d.len() == ls,
        forall|k: int| 0 <= k < ls ==> #[trigger] d[k] == v[b + k],
    ensures
        forall|k: int| 0 <= k < ls ==> #[trigger] overlay(t, ls, v)[b + k] == v[b + k],
        overwrite(overlay(t, ls, v), b, d) == overlay(t, ls, v),
{
    assert forall|k: int| 0 <= k < ls implies #[trigger] overlay(t, ls, v)[b + k] == v[b + k] by {
        lemma_holds_covers(t, ls, n, b + k);
        lemma_base_of(b + k, b, ls);
    }
    assert forall|k: int| 0 <= k < d.len() implies #[trigger] d[k] == overlay(t, ls, v)[b + k] by {
        assert(overlay(t, ls, v)[b + k] == v[b + k]);
    }
    lemma_overwrite_same(overlay(t, ls, v), b, d);
}

impl<M: MemoryDevice> NewCacheMemory<M> {
    #[verifier::rlimit(90)]
    #[verifier::spinoff_prover]
    fn load_u8_internal(&mut self, addr: usize, charge_timing: bool, clock: &mut Clock) -> (r: u8)
        requires
            old(self).state_wf(),
            old(self).can_access(addr as int),
        ensures
            old(self).pending@.len() == 0 && old(self).mapping(old(self).active_rmt(), old(self).base_of(addr as int)) is None
                && empty_slots(old(self).cache@).len() > 0 ==> (old(self).backing.fixed_costs() matches Some(c) ==> final(clock)@
                == tick_by(
                old(clock)@,
                old(self).line_len() * c.0 + (if charge_timing && old(self).timed { old(self).timing.load_miss as int } else { 0 }),
            )),
            old(self).pending@.len() == 0 && !old(self).hits_for_requester(old(self).base_of(addr as int)) ==> (final(self).trace_spec() matches Some(es) ==> (final(self).mapping(final(self).active_rmt(), old(self).base_of(addr as int))
                matches Some(i) && reports_eviction(es, i, old(self).cache@[i as int]))),
            final(self).mapping(final(self).active_rmt(), old(self).base_of(addr as int)) matches Some(i)
                && final(self).resident_base(i as int) == Some(old(self).base_of(addr as int) as usize),
            old(self).pending@.len() == 0 && old(self).mapping(old(self).active_rmt(), old(self).base_of(addr as int)) is Some
                ==> final(self).mapping(final(self).active_rmt(), old(self).base_of(addr as int)) == old(self).mapping(
                old(self).active_rmt(),
                old(self).base_of(addr as int),
            ),
            final(self).state_wf(),
            final(self).same_frame(old(self)),
            old(self).pending@.len() == 0 && old(self).hits_for_requester(old(self).base_of(addr as int))
                ==> final(clock)@ == saturating_tick(old(clock)@, if charge_timing && old(self).timed { old(self).timing.load_hit } else { 0 }),
            old(self).pending@.len() == 0 && !old(self).hits_for_requester(old(self).base_of(addr as int))
                ==> final(clock)@ >= saturating_tick(old(clock)@, if charge_timing && old(self).timed { old(self).timing.load_miss } else { 0 }),
            records_access(
                old(self).trace_spec(),
                final(self).trace_spec(),
                "newcache",
                old(self).requester_class(),
                old(self).requester_pid(),
                old(self).requester_domain(),
                CacheAccessKind::Load,
                addr,
            ),
            old(self).pending@.len() == 0 && old(self).trace_spec() is Some ==> last_access_hit(final(self).trace_spec())
                == old(self).hits_for_requester(old(self).base_of(addr as int)),
            final(self).hits_for_requester(old(self).base_of(addr as int)),
            final(clock)@ >= old(clock)@,
            old(self).state_coherent() ==> {
                &&& final(self).state_coherent()
                &&& final(self).full_view() == old(self).full_view()
                &&& r == old(self).full_view()[addr as int]
            },
    {
        self.apply_pending(clock);
        let ghost s0 = *self;
        proof {
            assert forall|k: int| 0 <= k < self.line_len() implies #[trigger] self.backing.accessible(self.base_of(addr as int) + k) by {
                assert(old(self).backing.accessible(old(self).base_of(addr as int) + k));
            }
            self.lemma_can_access(addr as int);
        }
        let ghost ls = self.line_len();
        let ghost n = self.mem_len();
        let ghost a = addr as int;
        let base = self.line_base(addr);
        let offset = addr - base;
        let requester = self.active_domain;
        match self.lookup_active_index(base) {
            Some(idx) => {
                let (_, tag) = self.logical_index_and_tag(base);
                let tag_hit = match &self.cache[idx] {
                    Some(line) => line.logical_tag == tag,
                    None => false,
                };
                if tag_hit {
                    let use_count = self.next_use_counter();
                    let ghost s1 = *self;
                    let slot = take_slot(&mut self.cache, idx);
                    match slot {
                        Some(mut line) => {
                            proof {
                                assert(present(s1.cache@, idx as int));
                            }
                            line.last_used = use_count;
                            let byte = line.data[offset];
                            put_slot(&mut self.cache, idx, line);
                            proof {
                                let o = s1.cache@;
                                let now = self.cache@;
                                assert(now =~= o.update(idx as int, Some(line)));
                                assert forall|i: int| #[trigger] present(now, i) implies at(now, i).base_addr == at(o, i).base_addr
                                    && at(now, i).data@ == at(o, i).data@ && at(now, i).dirty == at(o, i).dirty
                                    && at(now, i).logical_index == at(o, i).logical_index
                                    && at(now, i).logical_tag == at(o, i).logical_tag
                                    && at(now, i).rmt_id == at(o, i).rmt_id && present(o, i) by {}
                                assert forall|i: int| #[trigger] present(o, i) implies present(now, i) by {}
                                lemma_base_of_props(addr as int, ls);
                                s1.lemma_mapped_hit(base as int, idx as int);
                                if s0.state_coherent() {
                                    s1.lemma_unique();
                                    assert(covers(o, ls, idx as int, a));
                                    lemma_overlay_hit(o, ls, n, s1.backing.view(), idx as int, a);
                                    lemma_same_content(o, now, ls, n, s1.backing.view());
                                }
                            }
                            if charge_timing {
                                self.charge(self.timing.load_hit, clock);
                            }
                            self.record_access(requester, CacheAccessKind::Load, addr, true, idx, &None);
                            proof {
                                Self::lemma_frame_trans(*old(self), s0, *self);
                            }
                            byte
                        },
                        None => {
                            proof {
                                assert(false);
                            }
                            0
                        },
                    }
                } else {
                    proof {
                        if s0.state_coherent() {
                            s0.lemma_mapped_other(base as int, idx as int);
                        }
                    }
                    let line = self.fill_line_from_backing(base, requester, clock);
                    let ghost s1 = *self;
                    let byte = line.data[offset];
                    let evicted = self.install_line(idx, line, clock);
                    proof {
                        Self::lemma_frame_trans(*old(self), s0, s1);
                        Self::lemma_frame_trans(*old(self), s1, *self);
                        if s0.state_coherent() {
                            s0.lemma_unique();
                            lemma_unheld_line(s1.cache@, ls, n, s1.backing.view(), base as int, line.data@);
                            assert(line.data@[offset as int] == s1.backing.view()[base + offset]);
                        }
                    }
                    if charge_timing {
                        self.charge(self.timing.load_miss, clock);
                    }
                    self.record_access(requester, CacheAccessKind::Load, addr, false, idx, &evicted);
                    byte
                }
            },
            None => {
                proof {
                    if s0.state_coherent() {
                        s0.lemma_unmapped(base as int);
                    }
                }
                let line = self.fill_line_from_backing(base, requester, clock);
                let byte = line.data[offset];
                let idx = self.choose_install_index();
                proof {
                    if old(self).pending@.len() == 0 && empty_slots(old(self).cache@).len() > 0 {
                        let e = empty_slots(old(self).cache@);
                        let pick = xorshift(old(self).rng_state) as usize;
                        lemma_empty_slots_len(old(self).cache@);
                        let n = e.len() as usize;
                        assert(pick % n < n) by (nonlinear_arith)
                            requires
                                n > 0,
                        ;
                        lemma_empty_slots(old(self).cache@, (pick % n) as int);
                        assert(self.cache@[idx as int] is None);
                    }
                }
                let ghost s1 = *self;
                let evicted = self.install_line(idx, line, clock);
                proof {
                    Self::lemma_frame_trans(*old(self), s0, s1);
                    Self::lemma_frame_trans(*old(self), s1, *self);
                    if s0.state_coherent() {
                        s0.lemma_unique();
                        lemma_unheld_line(s1.cache@, ls, n, s1.backing.view(), base as int, line.data@);
                        assert(line.data@[offset as int] == s1.backing.view()[base + offset]);
                    }
                }
                if charge_timing {
                    self.charge(self.timing.load_miss, clock);
                }
                self.record_access(requester, CacheAccessKind::Load, addr, false, idx, &evicted);
                byte
            },
        }
    }
}

/// Overwriting a line that matches `v` with one byte changed changes that
/// byte only.
pub(crate) proof fn lemma_overwrite_one(v: Seq<u8>, b: int, d: Seq<u8>, off: int, x: u8)
    requires
        0 <= b,
        b + d.len() <= v.len(),
        0 <= off < d.len(),
        overwrite(v, b, d) == v,
    ensures
        overwrite(v, b, d.update(off, x)) == v.update(b + off, x),
{
    assert forall|c: int| 0 <= c < v.len() implies #[trigger] overwrite(v, b, d.update(off, x))[c] == v.update(b + off, x)[c] by {
        if b <= c < b + d.len() && c != b + off {
            assert(overwrite(v, b, d)[c] == v[c]);
        }
    }
    assert(overwrite(v, b, d.update(off, x)) =~= v.update(b + off, x));
}

impl<M: MemoryDevice> NewCacheMemory<M> {
    #[verifier::rlimit(40)]
    fn store_u8_internal(&mut self, addr: usize, value: u8, charge_timing: bool, clock: &mut Clock)
        requires
            old(self).state_wf(),
            old(self).can_access(addr as int),
        ensures
            old(self).pending@.len() == 0 && old(self).mapping(old(self).active_rmt(), old(self).base_of(addr as int)) is None
                && empty_slots(old(self).cache@).len() > 0 ==> (old(self).backing.fixed_costs() matches Some(c) ==> final(clock)@
                == tick_by(
                old(clock)@,
                old(self).line_len() * c.0 + (if charge_timing && old(self).timed { old(self).timing.store_miss as int } else { 0 }),
            )),
            old(self).pending@.len() == 0 && !old(self).hits_for_requester(old(self).base_of(addr as int)) ==> (final(self).trace_spec() matches Some(es) ==> (final(self).mapping(final(self).active_rmt(), old(self).base_of(addr as int))
                matches Some(i) && reports_eviction(es, i, old(self).cache@[i as int]))),
            final(self).mapping(final(self).active_rmt(), old(self).base_of(addr as int)) matches Some(i)
                && final(self).resident_base(i as int) == Some(old(self).base_of(addr as int) as usize),
            old(self).pending@.len() == 0 && old(self).mapping(old(self).active_rmt(), old(self).base_of(addr as int)) is Some
                ==> final(self).mapping(final(self).active_rmt(), old(self).base_of(addr as int)) == old(self).mapping(
                old(self).active_rmt(),
                old(self).base_of(addr as int),
            ),
            final(self).state_wf(),
            final(self).same_frame(old(self)),
            old(self).pending@.len() == 0 && old(self).hits_for_requester(old(self).base_of(addr as int))
                ==> final(clock)@ == saturating_tick(old(clock)@, if charge_timing && old(self).timed { old(self).timing.store_hit } else { 0 }),
            old(self).pending@.len() == 0 && !old(self).hits_for_requester(old(self).base_of(addr as int))
                ==> final(clock)@ >= saturating_tick(old(clock)@, if charge_timing && old(self).timed { old(self).timing.store_miss } else { 0 }),
            records_access(
                old(self).trace_spec(),
                final(self).trace_spec(),
                "newcache",
                old(self).requester_class(),
                old(self).requester_pid(),
                old(self).requester_domain(),
                CacheAccessKind::Store,
                addr,
            ),
            old(self).pending@.len() == 0 && old(self).trace_spec() is Some ==> last_access_hit(final(self).trace_spec())
                == old(self).hits_for_requester(old(self).base_of(addr as int)),
            final(self).hits_for_requester(old(self).base_of(addr as int)),
            final(clock)@ >= old(clock)@,
            old(self).state_coherent() ==> {
                &&& final(self).state_coherent()
                &&& final(self).full_view() == old(self).full_view().update(addr as int, value)
            },
    {
        self.apply_pending(clock);
        let ghost s0 = *self;
        proof {
            assert forall|k: int| 0 <= k < self.line_len() implies #[trigger] self.backing.accessible(self.base_of(addr as int) + k) by {
                assert(old(self).backing.accessible(old(self).base_of(addr as int) + k));
            }
            self.lemma_can_access(addr as int);
        }
        let ghost ls = self.line_len();
        let ghost n = self.mem_len();
        let ghost a = addr as int;
        let base = self.line_base(addr);
        let offset = addr - base;
        let requester = self.active_domain;
        match self.lookup_active_index(base) {
            Some(idx) => {
                let (_, tag) = self.logical_index_and_tag(base);
                let tag_hit = match &self.cache[idx] {
                    Some(line) => line.logical_tag == tag,
                    None => false,
                };
                if tag_hit {
                    let use_count = self.next_use_counter();
                    let ghost s1 = *self;
                    let slot = take_slot(&mut self.cache, idx);
                    match slot {
                        Some(mut line) => {
                            proof {
                                assert(present(s1.cache@, idx as int));
                            }
                            line.last_used = use_count;
                            line.dirty = true;
                            line.data.set(offset, value);
                            put_slot(&mut self.cache, idx, line);
                            proof {
                                let o = s1.cache@;
                                let now = self.cache@;
                                let old_line = at(o, idx as int);
                                assert(now =~= o.update(idx as int, Some(line)));
                                assert(line.data@ == old_line.data@.update(offset as int, value));
                                assert forall|i: int| #[trigger] present(now, i) implies present(o, i)
                                    && at(now, i).base_addr == at(o, i).base_addr
                                    && at(now, i).data@.len() == at(o, i).data@.len()
                                    && at(now, i).logical_index == at(o, i).logical_index
                                    && at(now, i).logical_tag == at(o, i).logical_tag
                                    && at(now, i).rmt_id == at(o, i).rmt_id by {}
                                assert forall|i: int| #[trigger] present(o, i) implies present(now, i) by {}
                                lemma_base_of_props(addr as int, ls);
                                s1.lemma_mapped_hit(base as int, idx as int);
                                if s0.state_coherent() {
                                    s1.lemma_unique();
                                    assert(covers(o, ls, idx as int, a));
                                    assert(a - old_line.base_addr == offset);
                                    lemma_overlay_write(o, ls, n, s1.backing.view(), idx as int, a, value, line);
                                    lemma_clean_put(o, ls, s1.backing.view(), idx as int, line);
                                }
                            }
                            if charge_timing {
                                self.charge(self.timing.store_hit, clock);
                            }
                            self.record_access(requester, CacheAccessKind::Store, addr, true, idx, &None);
                            proof {
                                Self::lemma_frame_trans(*old(self), s0, *self);
                            }
                        },
                        None => {
                            proof {
                                assert(false);
                            }
                        },
                    }
                } else {
                    proof {
                        if s0.state_coherent() {
                            s0.lemma_mapped_other(base as int, idx as int);
                        }
                    }
                    let mut line = self.fill_line_from_backing(base, requester, clock);
                    let ghost s1 = *self;
                    let ghost d = line.data@;
                    line.dirty = true;
                    line.data.set(offset, value);
                    let evicted = self.install_line(idx, line, clock);
                    proof {
                        Self::lemma_frame_trans(*old(self), s0, s1);
                        Self::lemma_frame_trans(*old(self), s1, *self);
                        if s0.state_coherent() {
                            s0.lemma_unique();
                            lemma_unheld_line(s1.cache@, ls, n, s1.backing.view(), base as int, d);
                            lemma_overwrite_one(s1.full_view(), base as int, d, offset as int, value);
                        }
                    }
                    if charge_timing {
                        self.charge(self.timing.store_miss, clock);
                    }
                    self.record_access(requester, CacheAccessKind::Store, addr, false, idx, &evicted);
                }
            },
            None => {
                proof {
                    if s0.state_coherent() {
                        s0.lemma_unmapped(base as int);
                    }
                }
                let mut line = self.fill_line_from_backing(base, requester, clock);
                let ghost d = line.data@;
                line.dirty = true;
                line.data.set(offset, value);
                let idx = self.choose_install_index();
                proof {
                    if old(self).pending@.len() == 0 && empty_slots(old(self).cache@).len() > 0 {
                        let e = empty_slots(old(self).cache@);
                        let pick = xorshift(old(self).rng_state) as usize;
                        lemma_empty_slots_len(old(self).cache@);
                        let n = e.len() as usize;
                        assert(pick % n < n) by (nonlinear_arith)
                            requires
                                n > 0,
                        ;
                        lemma_empty_slots(old(self).cache@, (pick % n) as int);
                        assert(self.cache@[idx as int] is None);
                    }
                }
                let ghost s1 = *self;
                let evicted = self.install_line(idx, line, clock);
                proof {
                    Self::lemma_frame_trans(*old(self), s0, s1);
                    Self::lemma_frame_trans(*old(self), s1, *self);
                    if s0.state_coherent() {
                        s0.lemma_unique();
                        lemma_unheld_line(s1.cache@, ls, n, s1.backing.view(), base as int, d);
                        lemma_overwrite_one(s1.full_view(), base as int, d, offset as int, value);
                    }
                }
                if charge_timing {
                    self.charge(self.timing.store_miss, clock);
                }
                self.record_access(requester, CacheAccessKind::Store, addr, false, idx, &evicted);
            },
        }
    }
}

/// Remapping-table domain of a requester of class `class` that names no
/// domain of its own.
pub open spec fn class_rmt(class: SecurityClass) -> u32 {
    match class {
        SecurityClass::High => 0u32,
        SecurityClass::Low => 1u32,
    }
}

impl<M: MemoryDevice> NewCacheMemory<M> {
    /// `self` holds the same lines, mapped the same way, over the same
    /// level below as `other`.
    pub open spec fn same_lines(&self, other: &Self) -> bool {
        &&& self.wf() == other.wf()
        &&& self.view() == other.view()
        &&& forall|b: int| #[trigger] self.accessible(b) == other.accessible(b)
        &&& forall|b: int| #[trigger] self.holds_line(b) == other.holds_line(b)
        &&& forall|r: u32, b: int| #[trigger] self.mapping(r, b) == other.mapping(r, b)
        &&& forall|i: int| #[trigger] self.resident_base(i) == other.resident_base(i)
        &&& self.line_len() == other.line_len()
        &&& self.line_count() == other.line_count()
        &&& self.backing_spec() == other.backing_spec()
    }

    /// `self` is `other` up to configuration that no access reads.
    pub open spec fn same_cache(&self, other: &Self) -> bool {
        &&& self.same_lines(other)
        &&& self.coherent() == other.coherent()
        &&& self.active_rmt() == other.active_rmt()
    }

    /// An empty cache of `num_sets * associativity` lines of `line_size`
    /// bytes in front of `backing`, serving the high class.
    pub fn new(line_size: usize, num_sets: usize, associativity: usize, backing: M) -> (c: Self)
        requires
            line_size > 0,
            num_sets > 0,
            associativity > 0,
            num_sets * associativity * 8 <= usize::MAX,
            backing.wf(),
        ensures
            c.wf(),
            c.view() == backing.view(),
            c.coherent() == backing_sound(backing),
            c.backing_spec() == backing,
            c.line_len() == line_size,
            c.line_count() == num_sets * associativity,
            !c.is_timed(),
            c.timing_spec() == CacheTiming::default_spec(),
            c.trace_spec() is None,
            c.active_rmt() == 0,
            forall|r: u32, b: int| #[trigger] c.mapping(r, b) is None,
            forall|b: int| #[trigger] c.holds_line(b) == backing.holds_line(b),
            forall|b: int| #[trigger] c.accessible(b) == (0 <= b && line_accessible(backing, (b / line_size as int) * line_size as int, line_size as int)),
    {
        let total_lines = num_sets * associativity;
        proof {
            assert(total_lines > 0) by (nonlinear_arith)
                requires
                    total_lines == num_sets * associativity,
                    num_sets > 0,
                    associativity > 0,
            ;
        }
        let mut cache: Vec<Option<CachedLine>> = Vec::new();
        let mut i: usize = 0;
        while i < total_lines
            invariant
                i <= total_lines,
                cache@.len() == i,
                forall|j: int| 0 <= j < i ==> #[trigger] cache@[j] is None,
            decreases total_lines - i,
        {
            cache.push(None);
            i = i + 1;
        }
        let c = NewCacheMemory {
            line_size,
            total_lines,
            logical_line_count: total_lines * DEFAULT_LOGICAL_INDEX_MULTIPLIER,
            cache,
            rmt: BTreeMap::new(),
            active_domain: SecurityClass::High,
            requester_pid: 0,
            requester_domain_id: 0,
            use_counter: 0,
            rng_state: 0x6e65_7763_6163_6865,
            backing,
            timed: false,
            timing: CacheTiming::default(),
            trace: None,
            pending: Vec::new(),
        };
        proof {
            assert forall|j: int| !#[trigger] present(c.cache@, j) by {
                if 0 <= j < c.cache@.len() {
                    assert(c.cache@[j] is None);
                }
            }
            assert forall|b: int| !#[trigger] holds_base(c.cache@, b) by {
                if holds_base(c.cache@, b) {
                    let j = choose|j: int| holds(c.cache@, j, b);
                    assert(present(c.cache@, j));
                }
            }
            assert(c.full_view() =~= backing.view());
            assert(c.rmt@ == Map::<(u32, usize), usize>::empty());
        }
        c
    }

    /// Seeds the random choice of physical lines; a zero seed counts as one.
    pub fn with_seed(self, seed: u64) -> (c: Self)
        ensures
            c.rng_spec() == if seed == 0 { 1 } else { seed },
            c.same_cache(&self),
            c.is_timed() == self.is_timed(),
            c.timing_spec() == self.timing_spec(),
            c.trace_spec() == self.trace_spec(),
    {
        let rng_state = if seed == 0 { 1 } else { seed };
        NewCacheMemory { rng_state, ..self }
    }

    /// Makes every later access charge the clock it is given.
    pub fn with_clock(self) -> (c: Self)
        ensures
            c.same_cache(&self),
            c.timing_spec() == self.timing_spec(),
            c.trace_spec() == self.trace_spec(),
            c.is_timed(),
    {
        NewCacheMemory { timed: true, ..self }
    }

    pub fn with_timing(self, timing: CacheTiming) -> (c: Self)
        ensures
            c.same_cache(&self),
            c.is_timed() == self.is_timed(),
            c.trace_spec() == self.trace_spec(),
            c.timing_spec() == timing,
    {
        NewCacheMemory { timing, ..self }
    }

    /// Records every later access into `trace`.
    pub fn with_trace(self, trace: CacheTrace) -> (c: Self)
        ensures
            c.same_cache(&self),
            c.is_timed() == self.is_timed(),
            c.timing_spec() == self.timing_spec(),
            c.trace_spec() == Some(trace@),
    {
        NewCacheMemory { trace: Some(trace), ..self }
    }

    /// Hands over the events recorded so far, emptying the trace.
    pub fn drain_trace(&mut self) -> (events: Vec<CacheAccessEvent>)
        ensures
            events@ == match old(self).trace_spec() {
                Some(e) => e,
                None => Seq::<CacheAccessEvent>::empty(),
            },
            final(self).trace_spec() == match old(self).trace_spec() {
                Some(e) => Some(Seq::<CacheAccessEvent>::empty()),
                None => None,
            },
            final(self).same_cache(old(self)),
            final(self).is_timed() == old(self).is_timed(),
            final(self).timing_spec() == old(self).timing_spec(),
    {
        match &mut self.trace {
            Some(t) => t.drain(),
            None => Vec::new(),
        }
    }

    /// The level below.
    pub fn backing_memory(&self) -> (m: &M)
        ensures
            *m == self.backing_spec(),
    {
        &self.backing
    }

    /// The physical line that a requester of class `class`, naming no domain,
    /// has the logical line of `base_addr` mapped to.
    pub fn lookup_for(&self, class: SecurityClass, base_addr: usize) -> (r: Option<usize>)
        requires
            self.wf(),
        ensures
            r == self.mapping(class_rmt(class), base_addr as int),
    {
        let rmt_id: u32 = match class {
            SecurityClass::High => 0,
            SecurityClass::Low => 1,
        };
        self.lookup_for_rmt(rmt_id, base_addr)
    }

    /// The physical line that domain `rmt_id` has the logical line of
    /// `base_addr` mapped to.
    pub fn lookup_for_rmt(&self, rmt_id: u32, base_addr: usize) -> (r: Option<usize>)
        requires
            self.wf(),
        ensures
            r == self.mapping(rmt_id, base_addr as int),
    {
        let (logical_index, _) = self.logical_index_and_tag(base_addr);
        match self.rmt.get(&(rmt_id, logical_index)) {
            Some(i) => Some(*i),
            None => None,
        }
    }

    /// The base address of the line that domain `rmt_id` has resident where
    /// the logical line of `base_addr` maps.
    pub fn resident_base_for_rmt(&self, rmt_id: u32, base_addr: usize) -> (r: Option<usize>)
        requires
            self.wf(),
        ensures
            r == match self.mapping(rmt_id, base_addr as int) {
                Some(i) => self.resident_base(i as int),
                None => None,
            },
    {
        match self.lookup_for_rmt(rmt_id, base_addr) {
            Some(i) => {
                proof {
                    let k = (rmt_id, self.index_of(base_addr as int));
                    assert(self.rmt@.contains_key(k));
                }
                match &self.cache[i] {
                    Some(line) => Some(line.base_addr),
                    None => None,
                }
            },
            None => None,
        }
    }

    /// A cache's accessible addresses depend only on its line size and on
    /// the level below.
    proof fn lemma_accessible_frame(s1: Self, s2: Self)
        requires
            s2.line_size == s1.line_size,
            forall|b: int| #[trigger] s2.backing.accessible(b) == s1.backing.accessible(b),
        ensures
            forall|b: int| #[trigger] s2.can_access(b) == s1.can_access(b),
    {
        assert forall|b: int| #[trigger] s2.can_access(b) == s1.can_access(b) by {
            if s1.can_access(b) {
                assert forall|k: int| 0 <= k < s2.line_len() implies #[trigger] s2.backing.accessible(s2.base_of(b) + k) by {
                    assert(s1.backing.accessible(s1.base_of(b) + k));
                }
            }
            if s2.can_access(b) {
                assert forall|k: int| 0 <= k < s1.line_len() implies #[trigger] s1.backing.accessible(s1.base_of(b) + k) by {
                    assert(s2.backing.accessible(s2.base_of(b) + k));
                }
            }
        }
    }
}

impl<M: MemoryDevice> SecurityClassControl for NewCacheMemory<M> {
    open spec fn attributed_class(&self) -> SecurityClass {
        self.requester_class()
    }

    fn set_requester_class(&mut self, class: SecurityClass)
        ensures
            final(self).same_lines(old(self)),
            final(self).active_rmt() == if old(self).requester_domain() != 0 {
                old(self).active_rmt()
            } else {
                class_rmt(class)
            },
    {
        self.active_domain = class;
    }

    fn set_requester_identity(&mut self, class: SecurityClass, pid: u32, domain: u32)
        ensures
            final(self).same_lines(old(self)),
            final(self).active_rmt() == if domain != 0 { domain } else { class_rmt(class) },
            final(self).requester_class() == class,
            final(self).requester_pid() == pid,
            final(self).requester_domain() == domain,
    {
        self.active_domain = class;
        self.requester_pid = pid;
        self.requester_domain_id = domain;
    }
}

impl<M: MemoryDevice> NewCacheMemory<M> {
    /// When the level below can reach every address below `n`, and `n` is a
    /// whole number of lines, so can this cache.
    pub proof fn lemma_accessible_below(&self, n: int)
        requires
            self.line_len() > 0,
            n >= 0,
            n % self.line_len() == 0,
            forall|b: int| 0 <= b < n ==> #[trigger] self.backing_spec().accessible(b),
        ensures
            forall|a: int| 0 <= a < n ==> #[trigger] self.accessible(a),
    {
        assert forall|a: int| 0 <= a < n implies #[trigger] self.accessible(a) by {
            let ls = self.line_len();
            lemma_base_of_props(a, ls);
            lemma_line_fits(a, ls, n);
            assert forall|k: int| 0 <= k < ls implies #[trigger] self.backing.accessible(self.base_of(a) + k) by {
                assert(0 <= self.base_of(a) + k < n);
                assert(self.backing_spec().accessible(self.base_of(a) + k));
            }
        }
    }
}

impl<M: MemoryDevice> MemoryDevice for NewCacheMemory<M> {
    closed spec fn view(&self) -> Seq<u8> {
        self.full_view()
    }

    closed spec fn wf(&self) -> bool {
        self.state_wf()
    }

    closed spec fn accessible(&self, addr: int) -> bool {
        self.can_access(addr)
    }

    closed spec fn coherent(&self) -> bool {
        self.state_coherent()
    }

    open spec fn exclusive(&self, addr: int) -> bool {
        true
    }

    closed spec fn outgoing(&self) -> Seq<usize> {
        Seq::empty()
    }

    open spec fn fixed_costs(&self) -> Option<(u64, u64)> {
        None
    }

    closed spec fn holds_line(&self, addr: int) -> bool {
        ||| holds_base(self.cache@, self.base_of(addr))
        ||| self.backing.holds_line(addr)
    }

    proof fn lemma_accessible_in_range(&self, addr: int) {
        self.lemma_can_access(addr);
    }

    fn load_u8(&mut self, addr: usize, clock: &mut Clock) -> (r: u8)
        ensures
            old(self).pending_invalidations().len() == 0 && old(self).mapping(old(self).active_rmt(), old(self).base_of(addr as int))
                is None && empty_slots(old(self).cache_slots()).len() > 0 ==> (old(self).backing_spec().fixed_costs() matches Some(
                c,
            ) ==> final(clock)@ == tick_by(
                old(clock)@,
                old(self).line_len() * c.0 + (if old(self).is_timed() { old(self).timing_spec().load_miss as int } else { 0 }),
            )),
            old(self).pending_invalidations().len() == 0 && !old(self).hits_for_requester(old(self).base_of(addr as int)) ==> (final(self).trace_spec() matches Some(es) ==> (final(self).mapping(final(self).active_rmt(), old(self).base_of(addr as int))
                matches Some(i) && reports_eviction(es, i, old(self).cache_slots()[i as int]))),
            final(self).mapping(final(self).active_rmt(), old(self).base_of(addr as int)) matches Some(i)
                && final(self).resident_base(i as int) == Some(old(self).base_of(addr as int) as usize),
            old(self).pending_invalidations().len() == 0 && old(self).mapping(old(self).active_rmt(), old(self).base_of(addr as int)) is Some
                ==> final(self).mapping(final(self).active_rmt(), old(self).base_of(addr as int)) == old(self).mapping(
                old(self).active_rmt(),
                old(self).base_of(addr as int),
            ),
            records_access(
                old(self).trace_spec(),
                final(self).trace_spec(),
                "newcache",
                old(self).requester_class(),
                old(self).requester_pid(),
                old(self).requester_domain(),
                CacheAccessKind::Load,
                addr,
            ),
            old(self).pending_invalidations().len() == 0 && old(self).trace_spec() is Some ==> last_access_hit(
                final(self).trace_spec(),
            ) == old(self).hits_for_requester(old(self).base_of(addr as int)),
            final(self).hits_for_requester(old(self).base_of(addr as int)),
            old(self).pending_invalidations().len() == 0 && old(self).hits_for_requester(old(self).base_of(addr as int))
                ==> final(clock)@ == saturating_tick(old(clock)@, if old(self).is_timed() { old(self).timing_spec().load_hit } else { 0 }),
            old(self).pending_invalidations().len() == 0 && !old(self).hits_for_requester(old(self).base_of(addr as int))
                ==> final(clock)@ >= saturating_tick(old(clock)@, if old(self).is_timed() { old(self).timing_spec().load_miss } else { 0 }),
    {
        let r = self.load_u8_internal(addr, true, clock);
        proof {
            assert(self.fixed_costs() == old(self).fixed_costs());
            Self::lemma_accessible_frame(*old(self), *self);
        }
        r
    }

    fn store_u8(&mut self, addr: usize, n: u8, clock: &mut Clock)
        ensures
            old(self).pending_invalidations().len() == 0 && old(self).mapping(old(self).active_rmt(), old(self).base_of(addr as int))
                is None && empty_slots(old(self).cache_slots()).len() > 0 ==> (old(self).backing_spec().fixed_costs() matches Some(
                c,
            ) ==> final(clock)@ == tick_by(
                old(clock)@,
                old(self).line_len() * c.0 + (if old(self).is_timed() { old(self).timing_spec().store_miss as int } else { 0 }),
            )),
            old(self).pending_invalidations().len() == 0 && !old(self).hits_for_requester(old(self).base_of(addr as int)) ==> (final(self).trace_spec() matches Some(es) ==> (final(self).mapping(final(self).active_rmt(), old(self).base_of(addr as int))
                matches Some(i) && reports_eviction(es, i, old(self).cache_slots()[i as int]))),
            final(self).mapping(final(self).active_rmt(), old(self).base_of(addr as int)) matches Some(i)
                && final(self).resident_base(i as int) == Some(old(self).base_of(addr as int) as usize),
            old(self).pending_invalidations().len() == 0 && old(self).mapping(old(self).active_rmt(), old(self).base_of(addr as int)) is Some
                ==> final(self).mapping(final(self).active_rmt(), old(self).base_of(addr as int)) == old(self).mapping(
                old(self).active_rmt(),
                old(self).base_of(addr as int),
            ),
            records_access(
                old(self).trace_spec(),
                final(self).trace_spec(),
                "newcache",
                old(self).requester_class(),
                old(self).requester_pid(),
                old(self).requester_domain(),
                CacheAccessKind::Store,
                addr,
            ),
            old(self).pending_invalidations().len() == 0 && old(self).trace_spec() is Some ==> last_access_hit(
                final(self).trace_spec(),
            ) == old(self).hits_for_requester(old(self).base_of(addr as int)),
            final(self).hits_for_requester(old(self).base_of(addr as int)),
            old(self).pending_invalidations().len() == 0 && old(self).hits_for_requester(old(self).base_of(addr as int))
                ==> final(clock)@ == saturating_tick(old(clock)@, if old(self).is_timed() { old(self).timing_spec().store_hit } else { 0 }),
            old(self).pending_invalidations().len() == 0 && !old(self).hits_for_requester(old(self).base_of(addr as int))
                ==> final(clock)@ >= saturating_tick(old(clock)@, if old(self).is_timed() { old(self).timing_spec().store_miss } else { 0 }),
    {
        self.store_u8_internal(addr, n, true, clock);
        proof {
            assert(self.fixed_costs() == old(self).fixed_costs());
            Self::lemma_accessible_frame(*old(self), *self);
        }
    }

    fn load_u16(&mut self, addr: usize, clock: &mut Clock) -> (r: u16) {
        proof {
            self.lemma_can_access(addr + 1);
        }
        let second = self.line_base(addr + 1) != self.line_base(addr);
        let ghost s0 = *self;
        let lo = self.load_u8_internal(addr, true, clock);
        proof {
            Self::lemma_accessible_frame(s0, *self);
        }
        let ghost s1 = *self;
        let hi = self.load_u8_internal(addr + 1, second, clock);
        proof {
            Self::lemma_accessible_frame(s1, *self);
            Self::lemma_frame_trans(s0, s1, *self);
            Self::lemma_accessible_frame(s0, *self);
        }
        lo as u16 + hi as u16 * 256
    }

    fn store_u16(&mut self, addr: usize, n: u16, clock: &mut Clock) {
        proof {
            self.lemma_can_access(addr + 1);
        }
        let second = self.line_base(addr + 1) != self.line_base(addr);
        let ghost s0 = *self;
        self.store_u8_internal(addr, (n % 256) as u8, true, clock);
        proof {
            Self::lemma_accessible_frame(s0, *self);
        }
        let ghost s1 = *self;
        self.store_u8_internal(addr + 1, (n / 256) as u8, second, clock);
        proof {
            Self::lemma_frame_trans(s0, s1, *self);
            Self::lemma_accessible_frame(s0, *self);
        }
    }

    fn load_u32(&mut self, addr: usize, clock: &mut Clock) -> (r: u32) {
        proof {
            self.lemma_can_access(addr + 3);
        }
        let c1 = self.line_base(addr + 1) != self.line_base(addr);
        let c2 = self.line_base(addr + 2) != self.line_base(addr + 1);
        let c3 = self.line_base(addr + 3) != self.line_base(addr + 2);
        let ghost s0 = *self;
        let b0 = self.load_u8_internal(addr, true, clock);
        proof {
            Self::lemma_accessible_frame(s0, *self);
        }
        let ghost s1 = *self;
        let b1 = self.load_u8_internal(addr + 1, c1, clock);
        proof {
            Self::lemma_frame_trans(s0, s1, *self);
            Self::lemma_accessible_frame(s0, *self);
        }
        let ghost s2 = *self;
        let b2 = self.load_u8_internal(addr + 2, c2, clock);
        proof {
            Self::lemma_frame_trans(s0, s2, *self);
            Self::lemma_accessible_frame(s0, *self);
        }
        let ghost s3 = *self;
        let b3 = self.load_u8_internal(addr + 3, c3, clock);
        proof {
            Self::lemma_frame_trans(s0, s3, *self);
            Self::lemma_accessible_frame(s0, *self);
        }
        b0 as u32 + b1 as u32 * 256 + b2 as u32 * 65536 + b3 as u32 * 16777216
    }

    fn store_u32(&mut self, addr: usize, n: u32, clock: &mut Clock) {
        proof {
            self.lemma_can_access(addr + 3);
        }
        let c1 = self.line_base(addr + 1) != self.line_base(addr);
        let c2 = self.line_base(addr + 2) != self.line_base(addr + 1);
        let c3 = self.line_base(addr + 3) != self.line_base(addr + 2);
        let ghost s0 = *self;
        self.store_u8_internal(addr, (n % 256) as u8, true, clock);
        proof {
            Self::lemma_accessible_frame(s0, *self);
        }
        let ghost s1 = *self;
        self.store_u8_internal(addr + 1, ((n / 256) % 256) as u8, c1, clock);
        proof {
            Self::lemma_frame_trans(s0, s1, *self);
            Self::lemma_accessible_frame(s0, *self);
        }
        let ghost s2 = *self;
        self.store_u8_internal(addr + 2, ((n / 65536) % 256) as u8, c2, clock);
        proof {
            Self::lemma_frame_trans(s0, s2, *self);
            Self::lemma_accessible_frame(s0, *self);
        }
        let ghost s3 = *self;
        self.store_u8_internal(addr + 3, (n / 16777216) as u8, c3, clock);
        proof {
            Self::lemma_frame_trans(s0, s3, *self);
            Self::lemma_accessible_frame(s0, *self);
        }
    }

    fn peek_u8(&self, addr: usize) -> (r: u8) {
        proof {
            self.lemma_can_access(addr as int);
        }
        let ghost ls = self.line_len();
        let ghost n = self.mem_len();
        let base = self.line_base(addr);
        let offset = addr - base;
        match find_in(&self.cache, 0, self.cache.len(), base) {
            Some(i) => {
                match &self.cache[i] {
                    Some(line) => {
                        proof {
                            assert(present(self.cache@, i as int));
                            if self.state_coherent() {
                                self.lemma_unique();
                                assert(covers(self.cache@, ls, i as int, addr as int));
                                lemma_overlay_hit(self.cache@, ls, n, self.backing.view(), i as int, addr as int);
                            }
                        }
                        return line.data[offset];
                    },
                    None => {},
                }
            },
            None => {
                proof {
                    if self.state_coherent() {
                        self.lemma_unique();
                        lemma_holds_covers(self.cache@, ls, n, addr as int);
                        assert(!holds_base(self.cache@, base as int));
                    }
                }
            },
        }
        proof {
            assert(self.backing.accessible(base + (addr - base)));
        }
        self.backing.peek_u8(addr)
    }

    fn store_backmost_u8(&mut self, addr: usize, n: u8, clock: &mut Clock) {
        proof {
            self.lemma_can_access(addr as int);
            lemma_base_of_props(addr as int, self.line_len());
            assert(self.backing.accessible(self.base_of(addr as int) + (addr - self.base_of(addr as int))));
        }
        let ghost s0 = *self;
        self.backing.store_backmost_u8(addr, n, clock);
        proof {
            self.lemma_lines_backing(s0);
            Self::lemma_accessible_frame(s0, *self);
            let ls = s0.line_len();
            let m = s0.mem_len();
            if s0.coherent() && !s0.holds_line(addr as int) {
                s0.lemma_unique();
                lemma_holds_covers(s0.cache@, ls, m, addr as int);
                assert(s0.backing.exclusive(addr as int));
                lemma_clean_update_uncovered(s0.cache@, ls, m, s0.backing.view(), addr as int, n);
                lemma_overlay_update_uncovered(s0.cache@, ls, m, s0.backing.view(), addr as int, n);
            }
            if s0.coherent() {
                assert forall|a: int| self.backing.accessible(a) implies #[trigger] self.backing.exclusive(a) by {
                    assert(s0.backing.accessible(a));
                }
            }
        }
    }

    fn take_invalidations(&mut self) -> (v: Vec<usize>) {
        Vec::new()
    }
}

impl<M: MemoryDevice> InvalidationListener for NewCacheMemory<M> {
    /// Drops the copies of the line held for every domain, writing dirty
    /// ones back.
    fn invalidate_line(&mut self, base_addr: usize, clock: &mut Clock)
        ensures
            final(self).cache_slots() == without_lines(old(self).cache_slots(), set![base_addr as int]),
            forall|r: u32, a: int| #[trigger] final(self).mapping(r, a) == match old(self).mapping(r, a) {
                Some(i) => if holds(old(self).cache_slots(), i as int, base_addr as int) {
                    None
                } else {
                    Some(i)
                },
                None => None,
            },
    {
        self.invalidate_all_copies(base_addr, clock);
        proof {
            Self::lemma_accessible_frame(*old(self), *self);
        }
    }
}

} // verus!