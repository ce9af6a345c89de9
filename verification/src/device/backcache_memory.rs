use vstd::prelude::*;

use crate::device::{Clock, ContextSwitchListener};
use crate::device::clock::{lemma_tick_by_twice, saturating_tick, tick_by};
use crate::device::memory::lines::{lemma_aligned_disjoint, lemma_base_of, lemma_base_of_props, lemma_slot_index, overwrite, lemma_line_fits, lemma_slot_in_set};
use crate::device::memory::table::{
    CachedLine, at, backing_frame, backing_sound, is_victim, clean_match, count_true, count_upto, covers,
    holds, holds_base, lemma_clean_overwrite, lemma_clean_put, lemma_count_bound, lemma_count_update, lemma_count_zero,
    lemma_cover_unique, lemma_overlay_hit, lemma_overlay_overwrite, lemma_overlay_put,
    lemma_overlay_remove, lemma_overlay_overwrite_held, lemma_table_replace, lemma_clean_update_uncovered, lemma_overlay_update_covered, lemma_overlay_update_uncovered, lemma_overlay_write, lemma_overwrite_same, lemma_refill_view, lemma_same_content, line_accessible, same_content, line_matches, overlay, present, read_line, table_wf,
    take_slot, put_slot, find_in, write_line, without_lines, addr_set, lemma_without_one, lemma_without_unheld,
    lemma_without_nothing, lemma_without_twice, lemma_addr_set_step,
};
use crate::device::memory::{CacheTiming, InvalidationListener, MemoryDevice, le_u16, le_u32, put_u16, put_u32};
use crate::device::secdcp_memory::SecurityClass;

verus! {

/// Bounds on how many lines of the backup buffer are enabled at a time.
#[derive(Clone, Copy, Debug)]
pub struct BackCachePolicy {
    pub min_enabled_lines: usize,
    pub max_enabled_lines: usize,
}

impl Default for BackCachePolicy {
    fn default() -> (p: Self)
        ensures
            p.min_enabled_lines == 128,
            p.max_enabled_lines == 512,
    {
        BackCachePolicy { min_enabled_lines: 128, max_enabled_lines: 512 }
    }
}

/// Cycles that dropping the copy of the line `b` that `t` holds takes,
/// where it holds one: writing it back first when it is dirty, at `c`
/// cycles per byte stored below plus `write_back`, and then `apply`.
pub open spec fn drop_cost(t: Seq<Option<CachedLine>>, b: int, ls: int, c: u64, write_back: int, apply: int) -> int {
    if holds_base(t, b) {
        (if at(t, choose|k: int| holds(t, k, b)).dirty { ls * c + write_back } else { 0 }) + apply
    } else {
        0
    }
}

/// `x` held within `lo..=hi`.
pub open spec fn clamp(x: int, lo: int, hi: int) -> int {
    if x < lo {
        lo
    } else if x > hi {
        hi
    } else {
        x
    }
}

/// The pure spec of one step of the xorshift generator.
pub open spec fn xorshift(s: u64) -> u64 {
    let a = s ^ (s << 13u64);
    let b = a ^ (a >> 7u64);
    b ^ (b << 17u64)
}

/// A first-level cache with a set-associative primary array and a backup
/// buffer of victim lines whose enabled size changes at random within the
/// policy's bounds.
///
/// A line evicted from the primary array moves into the backup buffer; a
/// hit in the buffer costs what a primary hit costs and copies the line
/// back into the primary array.
pub struct BackCacheMemory<M: MemoryDevice> {
    line_size: usize,
    num_sets: usize,
    associativity: usize,
    primary: Vec<Option<CachedLine>>,
    backup: Vec<Option<CachedLine>>,
    enabled: Vec<bool>,
    use_counter: usize,
    rng_state: u64,
    resize_countdown: usize,
    backing: M,
    timed: bool,
    timing: CacheTiming,
    policy: BackCachePolicy,
    pending: Vec<usize>,
}

impl<M: MemoryDevice> BackCacheMemory<M> {
    pub closed spec fn line_len(&self) -> int {
        self.line_size as int
    }

    /// Number of lines of the primary array, and of the backup buffer.
    pub closed spec fn capacity(&self) -> int {
        self.num_sets * self.associativity
    }

    pub closed spec fn is_timed(&self) -> bool {
        self.timed
    }

    pub closed spec fn timing_spec(&self) -> CacheTiming {
        self.timing
    }

    pub closed spec fn policy_spec(&self) -> BackCachePolicy {
        self.policy
    }

    pub closed spec fn backing_spec(&self) -> M {
        self.backing
    }

    /// Fewest backup lines enabled at once.
    pub open spec fn min_enabled(&self) -> int {
        clamp(self.policy_spec().min_enabled_lines as int, 1, self.capacity())
    }

    /// A well-formed cache keeps as many backup lines enabled as its policy
    /// allows, and resizes again within at most as many accesses.
    pub proof fn lemma_within_policy(&self)
        requires
            self.wf(),
        ensures
            self.min_enabled() <= self.enabled_count() <= self.max_enabled(),
            1 <= self.countdown() <= self.max_enabled(),
    {
    }

    /// Most backup lines enabled at once.
    pub open spec fn max_enabled(&self) -> int {
        clamp(self.policy_spec().max_enabled_lines as int, self.min_enabled(), self.capacity())
    }

    /// The slots of the primary array.
    pub closed spec fn primary_slots(&self) -> Seq<Option<CachedLine>> {
        self.primary@
    }

    /// The slots of the backup buffer.
    pub closed spec fn backup_slots(&self) -> Seq<Option<CachedLine>> {
        self.backup@
    }

    /// Whether backup slot `i` is in use under the current size.
    pub closed spec fn slot_enabled(&self, i: int) -> bool {
        self.enabled@[i]
    }

    /// Whether the primary array holds the line starting at `b`.
    pub closed spec fn in_primary(&self, b: int) -> bool {
        holds_base(self.primary@, b)
    }

    /// Lines the level below evicted that this cache has yet to drop.
    pub closed spec fn pending_invalidations(&self) -> Seq<usize> {
        self.pending@
    }

    /// Number of backup lines enabled now.
    pub closed spec fn enabled_count(&self) -> int {
        count_true(self.enabled@) as int
    }

    /// Accesses left before the backup buffer is resized.
    pub closed spec fn countdown(&self) -> int {
        self.resize_countdown as int
    }

    /// Whether the backup buffer holds the line starting at `b`, and its
    /// bit saying whether it was hit since it entered the buffer.
    pub closed spec fn backup_line(&self, b: int) -> Option<(bool, bool)> {
        if holds_base(self.backup@, b) {
            let j = choose|j: int| holds(self.backup@, j, b);
            Some((self.enabled@[j], at(self.backup@, j).used))
        } else {
            None
        }
    }

    /// First address of the line that holds `a`.
    pub open spec fn base_of(&self, a: int) -> int {
        (a / self.line_len()) * self.line_len()
    }

    spec fn set_of(&self, b: int) -> int {
        (b / self.line_len()) % (self.num_sets as int)
    }

    spec fn mem_len(&self) -> int {
        self.backing.view().len() as int
    }

    spec fn shape_wf(&self) -> bool {
        &&& self.line_size > 0
        &&& self.num_sets > 0
        &&& self.associativity > 0
        &&& self.num_sets * self.associativity <= usize::MAX
        &&& self.primary@.len() == self.capacity()
        &&& self.backup@.len() == self.capacity()
        &&& self.enabled@.len() == self.capacity()
    }

    spec fn lines_wf(&self) -> bool {
        &&& table_wf(self.primary@, self.line_len(), self.mem_len())
        &&& table_wf(self.backup@, self.line_len(), self.mem_len())
        &&& forall|i: int|
            #[trigger] present(self.primary@, i) ==> {
                &&& self.set_of(at(self.primary@, i).base_addr as int) == i / (self.associativity as int)
                &&& line_accessible(self.backing, at(self.primary@, i).base_addr as int, self.line_len())
            }
        &&& forall|j: int|
            #[trigger] present(self.backup@, j) ==> {
                &&& self.enabled@[j]
                &&& line_accessible(self.backing, at(self.backup@, j).base_addr as int, self.line_len())
            }
    }

    /// A line held by both arrays has the same contents in both.
    spec fn agree(&self) -> bool {
        forall|i: int, j: int|
            #![trigger present(self.primary@, i), present(self.backup@, j)]
            present(self.primary@, i) && present(self.backup@, j) && at(self.primary@, i).base_addr
                == at(self.backup@, j).base_addr ==> {
                &&& at(self.primary@, i).data@ == at(self.backup@, j).data@
                &&& at(self.primary@, i).dirty == at(self.backup@, j).dirty
            }
    }

    spec fn bounds_wf(&self) -> bool {
        &&& self.min_enabled() <= self.enabled_count() <= self.max_enabled()
        &&& 1 <= self.countdown() <= self.max_enabled()
    }

    spec fn core_wf(&self) -> bool {
        &&& self.shape_wf()
        &&& self.lines_wf()
        &&& self.agree()
        &&& self.backing.wf()
    }

    spec fn state_wf(&self) -> bool {
        &&& self.core_wf()
        &&& self.bounds_wf()
    }

    spec fn state_coherent(&self) -> bool {
        &&& backing_sound(self.backing)
        &&& clean_match(self.primary@, self.line_len(), self.backing.view())
        &&& clean_match(self.backup@, self.line_len(), self.backing.view())
    }

    /// What loads observe below the primary array.
    spec fn lower_view(&self) -> Seq<u8> {
        overlay(self.backup@, self.line_len(), self.backing.view())
    }

    spec fn full_view(&self) -> Seq<u8> {
        overlay(self.primary@, self.line_len(), self.lower_view())
    }

    /// The backup size that the next resize draws: the policy's bounds
    /// offset by the next random number.
    spec fn resize_pick(&self) -> int {
        self.min_enabled() + ((xorshift(self.rng_state) as usize) % ((self.max_enabled() - self.min_enabled()
            + 1) as usize)) as int
    }

    /// Whether the primary set of the line of `a` has an empty way.
    pub closed spec fn set_has_room(&self, a: int) -> bool {
        let lo = self.set_of(self.base_of(a)) * (self.associativity as int);
        exists|i: int| lo <= i < lo + self.associativity && !#[trigger] present(self.primary@, i)
    }

    /// Same configuration and same backing accessibility as `other`.
    spec fn same_frame(&self, other: &Self) -> bool {
        &&& self.line_size == other.line_size
        &&& self.num_sets == other.num_sets
        &&& self.associativity == other.associativity
        &&& self.timed == other.timed
        &&& self.timing == other.timing
        &&& self.policy == other.policy
        &&& backing_frame(self.backing, other.backing)
    }
}

impl<M: MemoryDevice> BackCacheMemory<M> {
    proof fn lemma_capacity_pos(&self)
        requires
            self.shape_wf(),
        ensures
            self.capacity() >= 1,
    {
        assert(self.num_sets * self.associativity >= 1) by (nonlinear_arith)
            requires
                self.num_sets > 0,
                self.associativity > 0,
        ;
    }

    proof fn lemma_frame_trans(s1: Self, s2: Self, s3: Self)
        requires
            s2.same_frame(&s1),
            s3.same_frame(&s2),
        ensures
            s3.same_frame(&s1),
    {
        assert forall|b: int| #[trigger] s3.backing.accessible(b) == s1.backing.accessible(b) by {
            assert(s2.backing.accessible(b) == s1.backing.accessible(b));
        }
        assert forall|b: int| s1.backing.exclusive(b) implies #[trigger] s3.backing.exclusive(b) by {
            assert(s2.backing.exclusive(b));
        }
    }

    /// Lines stay well formed over a backing whose accessible addresses and
    /// size are kept.
    proof fn lemma_lines_backing(s1: Self, s2: Self)
        requires
            s1.lines_wf(),
            s2.primary@ == s1.primary@,
            s2.backup@ == s1.backup@,
            s2.enabled@ == s1.enabled@,
            s2.line_size == s1.line_size,
            s2.num_sets == s1.num_sets,
            s2.associativity == s1.associativity,
            forall|b: int| #[trigger] s2.backing.accessible(b) == s1.backing.accessible(b),
            s2.backing.view().len() == s1.backing.view().len(),
        ensures
            s2.lines_wf(),
    {
        assert forall|i: int| #[trigger] present(s2.primary@, i) implies {
            &&& s2.set_of(at(s2.primary@, i).base_addr as int) == i / (s2.associativity as int)
            &&& line_accessible(s2.backing, at(s2.primary@, i).base_addr as int, s2.line_len())
        } by {
            assert(line_accessible(s1.backing, at(s1.primary@, i).base_addr as int, s1.line_len()));
            assert forall|k: int| 0 <= k < s2.line_len() implies #[trigger] s2.backing.accessible(at(s2.primary@, i).base_addr + k) by {
                assert(s1.backing.accessible(at(s1.primary@, i).base_addr + k));
            }
        }
        assert forall|j: int| #[trigger] present(s2.backup@, j) implies {
            &&& s2.enabled@[j]
            &&& line_accessible(s2.backing, at(s2.backup@, j).base_addr as int, s2.line_len())
        } by {
            assert(line_accessible(s1.backing, at(s1.backup@, j).base_addr as int, s1.line_len()));
            assert forall|k: int| 0 <= k < s2.line_len() implies #[trigger] s2.backing.accessible(at(s2.backup@, j).base_addr + k) by {
                assert(s1.backing.accessible(at(s1.backup@, j).base_addr + k));
            }
        }
    }

    /// Clean primary lines agree with what loads observe below the primary array.
    proof fn lemma_primary_clean_lower(&self)
        requires
            self.core_wf(),
            self.state_coherent(),
        ensures
            clean_match(self.primary@, self.line_len(), self.lower_view()),
    {
        let ls = self.line_len();
        let n = self.mem_len();
        let p = self.primary@;
        let bk = self.backup@;
        assert forall|i: int| #[trigger] present(p, i) && !at(p, i).dirty implies line_matches(p, ls, self.lower_view(), i) by {
            let b = at(p, i).base_addr as int;
            assert(line_matches(p, ls, self.backing.view(), i));
            assert forall|k: int| 0 <= k < ls implies #[trigger] at(p, i).data@[k] == self.lower_view()[b + k] by {
                let a = b + k;
                if exists|j: int| covers(bk, ls, j, a) {
                    let j = choose|j: int| covers(bk, ls, j, a);
                    assert(present(bk, j));
                    if at(bk, j).base_addr != b {
                        lemma_aligned_disjoint(b, at(bk, j).base_addr as int, ls);
                    }
                    assert(present(p, i) && present(bk, j));
                    lemma_overlay_hit(bk, ls, n, self.backing.view(), j, a);
                }
            }
        }
    }

    /// Evicting the backup line of slot `j`, written back when dirty, keeps
    /// the cache consistent and every byte it shows.
    proof fn lemma_backup_remove(s1: Self, s2: Self, j: int)
        requires
            s1.core_wf(),
            present(s1.backup@, j),
            s2.primary@ == s1.primary@,
            s2.backup@ == s1.backup@.update(j, None),
            s2.enabled@ == s1.enabled@,
            s2.line_size == s1.line_size,
            s2.num_sets == s1.num_sets,
            s2.associativity == s1.associativity,
            s2.policy == s1.policy,
            backing_frame(s2.backing, s1.backing),
            s1.state_coherent() ==> {
                &&& backing_sound(s2.backing)
                &&& s2.backing.view() == if at(s1.backup@, j).dirty {
                    overwrite(s1.backing.view(), at(s1.backup@, j).base_addr as int, at(s1.backup@, j).data@)
                } else {
                    s1.backing.view()
                }
            },
        ensures
            s2.core_wf(),
            s2.enabled_count() == s1.enabled_count(),
            s1.state_coherent() ==> s2.state_coherent() && s2.full_view() == s1.full_view()
                && s2.lower_view() == s1.lower_view(),
    {
        let ls = s1.line_len();
        let n = s1.mem_len();
        let y = at(s1.backup@, j);
        assert forall|i: int| #[trigger] present(s2.primary@, i) implies {
            &&& s2.set_of(at(s2.primary@, i).base_addr as int) == i / (s2.associativity as int)
            &&& line_accessible(s2.backing, at(s2.primary@, i).base_addr as int, s2.line_len())
        } by {
            assert(line_accessible(s1.backing, at(s1.primary@, i).base_addr as int, ls));
            assert forall|k: int| 0 <= k < ls implies #[trigger] s2.backing.accessible(at(s2.primary@, i).base_addr + k) by {
                assert(s1.backing.accessible(at(s1.primary@, i).base_addr + k));
            }
        }
        assert(table_wf(s2.backup@, ls, n)) by {
            assert forall|i: int| #[trigger] present(s2.backup@, i) implies present(s1.backup@, i) && at(s2.backup@, i) == at(s1.backup@, i) by {}
            assert forall|i: int, k: int|
                #![trigger present(s2.backup@, i), present(s2.backup@, k)]
                present(s2.backup@, i) && present(s2.backup@, k) && at(s2.backup@, i).base_addr == at(s2.backup@, k).base_addr implies i == k by {
                assert(present(s1.backup@, i) && present(s1.backup@, k));
            }
        }
        assert forall|i: int| #[trigger] present(s2.backup@, i) implies {
            &&& s2.enabled@[i]
            &&& line_accessible(s2.backing, at(s2.backup@, i).base_addr as int, s2.line_len())
        } by {
            assert(present(s1.backup@, i));
            assert(line_accessible(s1.backing, at(s1.backup@, i).base_addr as int, ls));
            assert forall|k: int| 0 <= k < ls implies #[trigger] s2.backing.accessible(at(s2.backup@, i).base_addr + k) by {
                assert(s1.backing.accessible(at(s1.backup@, i).base_addr + k));
            }
        }
        assert forall|i: int, k: int|
            #![trigger present(s2.primary@, i), present(s2.backup@, k)]
            present(s2.primary@, i) && present(s2.backup@, k) && at(s2.primary@, i).base_addr == at(s2.backup@, k).base_addr implies {
                &&& at(s2.primary@, i).data@ == at(s2.backup@, k).data@
                &&& at(s2.primary@, i).dirty == at(s2.backup@, k).dirty
            } by {
            assert(present(s1.primary@, i) && present(s1.backup@, k));
        }
        assert(s2.enabled_count() == s1.enabled_count());
        if s1.state_coherent() {
            lemma_overlay_remove(s1.backup@, ls, n, s1.backing.view(), j);
            assert(s2.lower_view() == s1.lower_view());
            if y.dirty {
                assert forall|i: int| #[trigger] holds(s1.primary@, i, y.base_addr as int) && !at(s1.primary@, i).dirty implies at(s1.primary@, i).data@ == y.data@ by {
                    assert(present(s1.primary@, i) && present(s1.backup@, j));
                }
                assert(present(s1.backup@, j));
                lemma_clean_overwrite(s1.primary@, ls, n, s1.backing.view(), y.base_addr as int, y.data@);
            }
        }
    }
}

impl<M: MemoryDevice> BackCacheMemory<M> {
    fn line_base(&self, addr: usize) -> (b: usize)
        requires
            self.shape_wf(),
        ensures
            b == self.base_of(addr as int),
    {
        proof {
            lemma_base_of_props(addr as int, self.line_len());
        }
        (addr / self.line_size) * self.line_size
    }

    fn set_index(&self, addr: usize) -> (s: usize)
        requires
            self.shape_wf(),
        ensures
            s == self.set_of(self.base_of(addr as int)),
            s < self.num_sets,
    {
        proof {
            lemma_base_of_props(addr as int, self.line_len());
        }
        (addr / self.line_size) % self.num_sets
    }

    fn next_use_counter(&mut self) -> (v: usize)
        ensures
            v == old(self).use_counter,
            *final(self) == (Self { use_counter: final(self).use_counter, ..*old(self) }),
    {
        let v = self.use_counter;
        self.use_counter = self.use_counter.saturating_add(1);
        v
    }

    fn charge(&self, n: u64, clock: &mut Clock)
        ensures
            final(clock)@ == saturating_tick(old(clock)@, if self.timed { n } else { 0 }),
    {
        if self.timed {
            clock.advance(n);
        }
    }

    fn random_u64(&mut self) -> (r: u64)
        ensures
            r == xorshift(old(self).rng_state),
            *final(self) == (Self { rng_state: r, ..*old(self) }),
    {
        let mut state = self.rng_state;
        state = state ^ (state << 13u64);
        state = state ^ (state >> 7u64);
        state = state ^ (state << 17u64);
        self.rng_state = state;
        state
    }

    fn random_index(&mut self, len: usize) -> (r: usize)
        requires
            len > 0,
        ensures
            r < len,
            final(self).rng_state == xorshift(old(self).rng_state),
            r == (xorshift(old(self).rng_state) as usize) % len,
            *final(self) == (Self { rng_state: final(self).rng_state, ..*old(self) }),
    {
        let v = self.random_u64();
        (#[verifier::truncate] (v as usize)) % len
    }

    fn backup_capacity(&self) -> (c: usize)
        requires
            self.shape_wf(),
        ensures
            c == self.capacity(),
    {
        self.num_sets * self.associativity
    }

    fn normalized_policy_bounds(&self) -> (r: (usize, usize))
        requires
            self.shape_wf(),
        ensures
            r.0 == self.min_enabled(),
            r.1 == self.max_enabled(),
            1 <= r.0 <= r.1 <= self.capacity(),
    {
        proof {
            self.lemma_capacity_pos();
        }
        let capacity = self.backup_capacity();
        let min = if self.policy.min_enabled_lines < 1 {
            1
        } else if self.policy.min_enabled_lines > capacity {
            capacity
        } else {
            self.policy.min_enabled_lines
        };
        let max = if self.policy.max_enabled_lines < min {
            min
        } else if self.policy.max_enabled_lines > capacity {
            capacity
        } else {
            self.policy.max_enabled_lines
        };
        (min, max)
    }

    fn random_enabled_count(&mut self) -> (c: usize)
        requires
            old(self).shape_wf(),
        ensures
            old(self).min_enabled() <= c <= old(self).max_enabled(),
            c == old(self).resize_pick(),
            final(self).rng_state == xorshift(old(self).rng_state),
            *final(self) == (Self { rng_state: final(self).rng_state, ..*old(self) }),
    {
        let (min, max) = self.normalized_policy_bounds();
        min + self.random_index(max - min + 1)
    }

    fn current_enabled_lines(&self) -> (c: usize)
        requires
            self.shape_wf(),
        ensures
            c == self.enabled_count(),
    {
        let mut c: usize = 0;
        let mut i: usize = 0;
        while i < self.enabled.len()
            invariant
                self.shape_wf(),
                i <= self.enabled@.len(),
                c == count_upto(self.enabled@, i as int),
            decreases self.enabled@.len() - i,
        {
            proof {
                lemma_count_bound(self.enabled@, i as int);
            }
            if self.enabled[i] {
                c = c + 1;
            }
            i = i + 1;
        }
        c
    }

    /// Slot of the backup buffer that holds the line `base`, if any.
    fn find_backup_slot(&self, base: usize) -> (r: Option<usize>)
        requires
            self.core_wf(),
        ensures
            match r {
                Some(j) => holds(self.backup@, j as int, base as int),
                None => !holds_base(self.backup@, base as int),
            },
    {
        let r = find_in(&self.backup, 0, self.backup.len(), base);
        proof {
            if r is None {
                assert forall|j: int| !#[trigger] holds(self.backup@, j, base as int) by {
                    if 0 <= j < self.backup@.len() {
                    }
                }
            }
        }
        r
    }

    /// A backup slot to give up: an enabled empty one if any (at random);
    /// else, when every enabled line was hit, the least recently used;
    /// else one that was hit, at random; else any, at random.
    fn select_backup_victim(&mut self) -> (idx: usize)
        requires
            old(self).shape_wf(),
            old(self).enabled_count() > 0,
        ensures
            idx < old(self).capacity(),
            old(self).enabled@[idx as int],
            *final(self) == (Self { rng_state: final(self).rng_state, ..*old(self) }),
    {
        let cap = self.backup.len();
        let mut enabled_idx: Vec<usize> = Vec::new();
        let mut empty: Vec<usize> = Vec::new();
        let mut used_true: Vec<usize> = Vec::new();
        let mut used_false: Vec<usize> = Vec::new();
        let mut i: usize = 0;
        while i < cap
            invariant
                self.shape_wf(),
                cap == self.backup@.len(),
                i <= cap,
                enabled_idx@.len() == count_upto(self.enabled@, i as int),
                enabled_idx@.len() == empty@.len() + used_true@.len() + used_false@.len(),
                forall|k: int| 0 <= k < enabled_idx@.len() ==> #[trigger] enabled_idx@[k] < cap && self.enabled@[enabled_idx@[k] as int],
                forall|k: int| 0 <= k < empty@.len() ==> #[trigger] empty@[k] < cap && self.enabled@[empty@[k] as int],
                forall|k: int| 0 <= k < used_true@.len() ==> #[trigger] used_true@[k] < cap && self.enabled@[used_true@[k] as int],
                forall|k: int| 0 <= k < used_false@.len() ==> #[trigger] used_false@[k] < cap && self.enabled@[used_false@[k] as int],
            decreases cap - i,
        {
            proof {
                lemma_count_bound(self.enabled@, i as int);
            }
            if self.enabled[i] {
                enabled_idx.push(i);
                match &self.backup[i] {
                    None => empty.push(i),
                    Some(l) => {
                        if l.used {
                            used_true.push(i);
                        } else {
                            used_false.push(i);
                        }
                    },
                }
            }
            i = i + 1;
        }
        if empty.len() > 0 {
            let r = self.random_index(empty.len());
            return empty[r];
        }
        if used_false.len() == 0 {
            let mut best = enabled_idx[0];
            let mut best_used = match &self.backup[best] {
                Some(l) => l.last_used,
                None => usize::MAX,
            };
            let mut k: usize = 1;
            while k < enabled_idx.len()
                invariant
                    self.shape_wf(),
                    cap == self.backup@.len(),
                    1 <= k <= enabled_idx@.len(),
                    best < cap,
                    self.enabled@[best as int],
                    forall|m: int| 0 <= m < enabled_idx@.len() ==> #[trigger] enabled_idx@[m] < cap && self.enabled@[enabled_idx@[m] as int],
                decreases enabled_idx@.len() - k,
            {
                let idx = enabled_idx[k];
                let used = match &self.backup[idx] {
                    Some(l) => l.last_used,
                    None => usize::MAX,
                };
                if used < best_used {
                    best_used = used;
                    best = idx;
                }
                k = k + 1;
            }
            return best;
        }
        if used_true.len() > 0 {
            let r = self.random_index(used_true.len());
            return used_true[r];
        }
        let r = self.random_index(used_false.len());
        used_false[r]
    }

    /// A disabled backup slot to enable, at random.
    fn choose_disabled_slot_to_enable(&mut self) -> (idx: usize)
        requires
            old(self).shape_wf(),
            old(self).enabled_count() < old(self).capacity(),
        ensures
            idx < old(self).capacity(),
            !old(self).enabled@[idx as int],
            *final(self) == (Self { rng_state: final(self).rng_state, ..*old(self) }),
    {
        let cap = self.backup.len();
        let mut disabled: Vec<usize> = Vec::new();
        let mut i: usize = 0;
        while i < cap
            invariant
                self.shape_wf(),
                cap == self.enabled@.len(),
                i <= cap,
                disabled@.len() + count_upto(self.enabled@, i as int) == i,
                forall|k: int| 0 <= k < disabled@.len() ==> #[trigger] disabled@[k] < cap && !self.enabled@[disabled@[k] as int],
            decreases cap - i,
        {
            if !self.enabled[i] {
                disabled.push(i);
            }
            i = i + 1;
        }
        let r = self.random_index(disabled.len());
        disabled[r]
    }
}

impl<M: MemoryDevice> BackCacheMemory<M> {
    /// Empties backup slot `idx`, writing its line back when dirty.
    fn evict_backup_slot_if_needed(&mut self, idx: usize, clock: &mut Clock)
        requires
            old(self).core_wf(),
            idx < old(self).capacity(),
        ensures
            final(self).core_wf(),
            *final(self) == (Self {
                backup: final(self).backup,
                backing: final(self).backing,
                pending: final(self).pending,
                ..*old(self)
            }),
            final(self).backup@ == old(self).backup@.update(idx as int, None),
            final(self).same_frame(old(self)),
            final(self).enabled_count() == old(self).enabled_count(),
            final(clock)@ >= old(clock)@,
            final(self).backing.fixed_costs() == old(self).backing.fixed_costs(),
            old(self).backing.fixed_costs() matches Some(c) ==> final(clock)@ == tick_by(
                old(clock)@,
                match old(self).backup@[idx as int] {
                    Some(l) => if l.dirty { old(self).line_len() * c.1 + (if old(self).timed { old(self).timing.write_back as int } else { 0 }) } else { 0 },
                    None => 0,
                },
            ),
            old(self).state_coherent() ==> final(self).state_coherent() && final(self).full_view()
                == old(self).full_view() && final(self).lower_view() == old(self).lower_view(),
    {
        let ghost s1 = *self;
        let evicted = take_slot(&mut self.backup, idx);
        match evicted {
            Some(line) => {
                proof {
                    assert(present(s1.backup@, idx as int));
                    assert(line_accessible(s1.backing, line.base_addr as int, s1.line_len()));
                }
                if line.dirty {
                    let ghost cw = clock@;
                    write_line(&mut self.backing, &mut self.pending, line.base_addr, &line.data, clock);
                    self.charge(self.timing.write_back, clock);
                    proof {
                        if let Some(c) = s1.backing.fixed_costs() {
                            lemma_tick_by_twice(cw, s1.line_len() * c.1, if s1.timed { s1.timing.write_back as int } else { 0 });
                        }
                    }
                }
                proof {
                    Self::lemma_backup_remove(s1, *self, idx as int);
                }
            },
            None => {
                proof {
                    assert(self.backup@ =~= s1.backup@);
                    Self::lemma_lines_backing(s1, *self);
                }
            },
        }
    }

    /// Enables or disables backup slots until `target` (held within
    /// `1..=capacity`) of them are enabled.
    fn set_enabled_lines(&mut self, target: usize, clock: &mut Clock)
        requires
            old(self).core_wf(),
        ensures
            final(self).core_wf(),
            final(self).enabled_count() == clamp(target as int, 1, old(self).capacity()),
            final(self).primary@ == old(self).primary@,
            forall|j: int| #[trigger] present(final(self).backup@, j) ==> present(old(self).backup@, j),
            final(self).same_frame(old(self)),
            final(self).resize_countdown == old(self).resize_countdown,
            final(self).use_counter == old(self).use_counter,
            final(clock)@ >= old(clock)@,
            old(self).state_coherent() ==> final(self).state_coherent() && final(self).full_view()
                == old(self).full_view(),
    {
        proof {
            self.lemma_capacity_pos();
        }
        let capacity = self.backup_capacity();
        let target = if target < 1 {
            1
        } else if target > capacity {
            capacity
        } else {
            target
        };
        while self.current_enabled_lines() > target
            invariant
                self.core_wf(),
                self.same_frame(old(self)),
                self.primary@ == old(self).primary@,
                forall|j: int| #[trigger] present(self.backup@, j) ==> present(old(self).backup@, j),
                self.resize_countdown == old(self).resize_countdown,
                self.use_counter == old(self).use_counter,
                1 <= target <= capacity,
                capacity == self.capacity(),
                clock@ >= old(clock)@,
                old(self).state_coherent() ==> self.state_coherent() && self.full_view() == old(self).full_view(),
            decreases self.enabled_count(),
        {
            let idx = self.select_backup_victim();
            let ghost mid = *self;
            self.evict_backup_slot_if_needed(idx, clock);
            let ghost s2 = *self;
            self.enabled.set(idx, false);
            proof {
                lemma_count_update(s2.enabled@, idx as int, false, s2.enabled@.len() as int);
                assert(!present(self.backup@, idx as int));
                assert forall|j: int| #[trigger] present(self.backup@, j) implies present(old(self).backup@, j) by {
                    assert(present(mid.backup@, j));
                }
                assert forall|j: int| #[trigger] present(self.backup@, j) implies {
                    &&& self.enabled@[j]
                    &&& line_accessible(self.backing, at(self.backup@, j).base_addr as int, self.line_len())
                } by {
                    assert(present(s2.backup@, j));
                }
            }
        }
        while self.current_enabled_lines() < target
            invariant
                self.core_wf(),
                self.same_frame(old(self)),
                self.primary@ == old(self).primary@,
                forall|j: int| #[trigger] present(self.backup@, j) ==> present(old(self).backup@, j),
                self.resize_countdown == old(self).resize_countdown,
                self.use_counter == old(self).use_counter,
                1 <= target <= capacity,
                capacity == self.capacity(),
                self.enabled_count() <= target,
                clock@ >= old(clock)@,
                old(self).state_coherent() ==> self.state_coherent() && self.full_view() == old(self).full_view(),
            decreases target - self.enabled_count(),
        {
            let idx = self.choose_disabled_slot_to_enable();
            let ghost s2 = *self;
            proof {
                assert(!present(s2.backup@, idx as int));
            }
            self.enabled.set(idx, true);
            self.backup.set(idx, None);
            proof {
                lemma_count_update(s2.enabled@, idx as int, true, s2.enabled@.len() as int);
                assert(self.backup@ =~= s2.backup@);
                assert forall|j: int| #[trigger] present(self.backup@, j) implies present(old(self).backup@, j) by {
                    assert(present(s2.backup@, j));
                }
                assert forall|j: int| #[trigger] present(self.backup@, j) implies {
                    &&& self.enabled@[j]
                    &&& line_accessible(self.backing, at(self.backup@, j).base_addr as int, self.line_len())
                } by {
                    assert(present(s2.backup@, j));
                }
            }
        }
    }

    /// Counts one access; every so many accesses the backup buffer takes a
    /// new random size within the policy's bounds.
    fn access_complete(&mut self, clock: &mut Clock)
        requires
            old(self).state_wf(),
        ensures
            final(self).state_wf(),
            final(self).primary@ == old(self).primary@,
            final(self).same_frame(old(self)),
            final(self).use_counter == old(self).use_counter,
            final(clock)@ >= old(clock)@,
            old(self).resize_countdown > 1 ==> final(clock)@ == old(clock)@,
            old(self).resize_countdown > 1 ==> *final(self) == (Self {
                resize_countdown: (old(self).resize_countdown - 1) as usize,
                ..*old(self)
            }),
            old(self).resize_countdown <= 1 ==> final(self).resize_countdown == old(self).resize_pick()
                && final(self).enabled_count() == old(self).resize_pick(),
            old(self).state_coherent() ==> final(self).state_coherent() && final(self).full_view()
                == old(self).full_view(),
    {
        if self.resize_countdown > 1 {
            self.resize_countdown = self.resize_countdown - 1;
        } else {
            let enabled = self.random_enabled_count();
            self.set_enabled_lines(enabled, clock);
            self.resize_countdown = enabled;
        }
    }

    /// Clears the bit that says whether each backup line was hit.
    fn clear_backup_used_bits(&mut self)
        requires
            old(self).state_wf(),
        ensures
            final(self).state_wf(),
            *final(self) == (Self { backup: final(self).backup, ..*old(self) }),
            final(self).same_frame(old(self)),
            final(self).primary@ == old(self).primary@,
            same_content(old(self).backup@, final(self).backup@),
            forall|j: int| #[trigger] present(final(self).backup@, j) ==> !at(final(self).backup@, j).used,
            final(self).full_view() == old(self).full_view(),
            old(self).state_coherent() ==> final(self).state_coherent(),
    {
        let mut i: usize = 0;
        while i < self.backup.len()
            invariant
                old(self).state_wf(),
                *self == (Self { backup: self.backup, ..*old(self) }),
                i <= self.backup@.len(),
                same_content(old(self).backup@, self.backup@),
                forall|j: int| 0 <= j < i && #[trigger] present(self.backup@, j) ==> !at(self.backup@, j).used,
            decreases self.backup@.len() - i,
        {
            let ghost before = self.backup@;
            let slot = take_slot(&mut self.backup, i);
            match slot {
                Some(mut line) => {
                    line.used = false;
                    put_slot(&mut self.backup, i, line);
                },
                None => {
                    proof {
                        assert(self.backup@ =~= before);
                    }
                },
            }
            proof {
                let o = old(self).backup@;
                let now = self.backup@;
                assert forall|j: int| #[trigger] present(now, j) == present(o, j) by {
                    assert(present(before, j) == present(o, j));
                    if j != i && 0 <= j < now.len() {
                        assert(now[j] == before[j]);
                    }
                }
                assert forall|j: int| #[trigger] present(now, j) implies {
                    &&& at(now, j).base_addr == at(o, j).base_addr
                    &&& at(now, j).data@ == at(o, j).data@
                    &&& at(now, j).dirty == at(o, j).dirty
                } by {
                    assert(present(before, j) == present(o, j));
                    if j != i {
                        assert(now[j] == before[j]);
                    }
                }
                assert forall|j: int| 0 <= j < i + 1 && #[trigger] present(now, j) implies !at(now, j).used by {
                    if j != i {
                        assert(now[j] == before[j]);
                        assert(present(before, j));
                    }
                }
            }
            i = i + 1;
        }
        proof {
            let s1 = *old(self);
            let ls = s1.line_len();
            let n = s1.mem_len();
            lemma_same_content(s1.backup@, self.backup@, ls, n, s1.backing.view());
            assert forall|j: int| #[trigger] present(self.backup@, j) implies {
                &&& self.enabled@[j]
                &&& line_accessible(self.backing, at(self.backup@, j).base_addr as int, self.line_len())
            } by {
                assert(present(s1.backup@, j));
            }
            assert forall|i: int, j: int|
                #![trigger present(self.primary@, i), present(self.backup@, j)]
                present(self.primary@, i) && present(self.backup@, j) && at(self.primary@, i).base_addr
                    == at(self.backup@, j).base_addr implies {
                    &&& at(self.primary@, i).data@ == at(self.backup@, j).data@
                    &&& at(self.primary@, i).dirty == at(self.backup@, j).dirty
                } by {
                assert(present(s1.backup@, j));
            }
        }
    }
}

impl<M: MemoryDevice> BackCacheMemory<M> {
    /// The way of set `set_idx` to refill: an empty one, or else the least
    /// recently used.
    fn primary_lru_victim(&self, set_idx: usize) -> (idx: usize)
        requires
            self.shape_wf(),
            set_idx < self.num_sets,
        ensures
            idx < self.capacity(),
            (idx as int) / (self.associativity as int) == set_idx,
            is_victim(
                self.primary@,
                set_idx * self.associativity,
                set_idx * self.associativity + self.associativity,
                idx as int,
            ),
    {
        let mut lru_way: usize = 0;
        let mut lru_used: usize = usize::MAX;
        let mut w: usize = 0;
        let ghost lo = set_idx * self.associativity;
        proof {
            lemma_slot_index(set_idx as int, 0, self.associativity as int, self.num_sets as int);
            lemma_slot_index(set_idx as int, self.associativity - 1, self.associativity as int, self.num_sets as int);
        }
        while w < self.associativity
            invariant
                self.shape_wf(),
                set_idx < self.num_sets,
                w <= self.associativity,
                lru_way < self.associativity,
                lo == set_idx * self.associativity,
                lo + self.associativity <= self.primary@.len(),
                lru_way < w || (lru_way == 0 && lru_used == usize::MAX),
                forall|j: int| lo <= j < lo + w ==> #[trigger] present(self.primary@, j),
                lru_way < w ==> present(self.primary@, lo + lru_way) && at(self.primary@, lo + lru_way).last_used
                    == lru_used,
                forall|j: int| lo <= j < lo + w ==> lru_used <= #[trigger] at(self.primary@, j).last_used,
                forall|j: int| lo <= j < lo + lru_way ==> lru_used < #[trigger] at(self.primary@, j).last_used,
            decreases self.associativity - w,
        {
            proof {
                lemma_slot_index(set_idx as int, w as int, self.associativity as int, self.num_sets as int);
            }
            let idx = set_idx * self.associativity + w;
            match &self.primary[idx] {
                None => {
                    return idx;
                },
                Some(line) => {
                    if line.last_used < lru_used {
                        lru_used = line.last_used;
                        lru_way = w;
                    }
                },
            }
            w = w + 1;
        }
        proof {
            lemma_slot_index(set_idx as int, lru_way as int, self.associativity as int, self.num_sets as int);
        }
        set_idx * self.associativity + lru_way
    }

    /// What loads observe below the primary array over a line that the
    /// backup buffer does not hold is the level below.
    proof fn lemma_lower_uncovered(&self, b: int, k: int)
        requires
            self.core_wf(),
            !holds_base(self.backup@, b),
            b >= 0,
            b % self.line_len() == 0,
            0 <= k < self.line_len(),
            b + k < self.mem_len(),
        ensures
            self.lower_view()[b + k] == self.backing.view()[b + k],
    {
        let ls = self.line_len();
        let a = b + k;
        assert forall|j: int| !#[trigger] covers(self.backup@, ls, j, a) by {
            if covers(self.backup@, ls, j, a) {
                assert(present(self.backup@, j));
                if at(self.backup@, j).base_addr != b {
                    lemma_aligned_disjoint(b, at(self.backup@, j).base_addr as int, ls);
                }
                assert(holds(self.backup@, j, b));
            }
        }
    }

    /// Under a coherent cache, an address whose line neither the primary
    /// array nor the backup buffer holds reads as the level below has it: a
    /// copy written back when it was dropped is found there.
    pub proof fn lemma_view_below(&self, a: int)
        requires
            self.wf(),
            self.coherent(),
            0 <= a < self.backing_spec().view().len(),
            !self.in_primary(self.base_of(a)),
            self.backup_line(self.base_of(a)) is None,
        ensures
            self.view()[a] == self.backing_spec().view()[a],
    {
        let ls = self.line_len();
        lemma_base_of_props(a, ls);
        let b = self.base_of(a);
        assert forall|j: int| !#[trigger] covers(self.primary@, ls, j, a) by {
            if covers(self.primary@, ls, j, a) {
                assert(present(self.primary@, j));
                if at(self.primary@, j).base_addr != b {
                    lemma_aligned_disjoint(b, at(self.primary@, j).base_addr as int, ls);
                }
                assert(holds(self.primary@, j, b));
            }
        }
        self.lemma_lower_uncovered(b, a - b);
    }

    /// Moves a line evicted from the primary array into the backup buffer:
    /// over its old copy there if any, else into a slot given up for it.
    fn insert_primary_eviction_into_backup(&mut self, line: CachedLine, clock: &mut Clock)
        requires
            old(self).state_wf(),
            !holds_base(old(self).primary@, line.base_addr as int),
            line.data@.len() == old(self).line_len(),
            (line.base_addr as int) % old(self).line_len() == 0,
            line.base_addr + old(self).line_len() <= old(self).mem_len(),
            line_accessible(old(self).backing, line.base_addr as int, old(self).line_len()),
            forall|j: int| #[trigger] holds(old(self).backup@, j, line.base_addr as int) ==> {
                &&& at(old(self).backup@, j).data@ == line.data@
                &&& at(old(self).backup@, j).dirty == line.dirty
            },
        ensures
            final(self).state_wf(),
            final(self).primary@ == old(self).primary@,
            forall|c: int| #[trigger] holds_base(final(self).backup@, c) ==> holds_base(old(self).backup@, c)
                || c == line.base_addr,
            final(self).same_frame(old(self)),
            final(self).resize_countdown == old(self).resize_countdown,
            final(self).use_counter == old(self).use_counter,
            final(clock)@ >= old(clock)@,
            old(self).state_coherent() && (!line.dirty ==> forall|k: int|
                0 <= k < old(self).line_len() ==> #[trigger] line.data@[k] == old(self).backing.view()[line.base_addr + k])
                ==> {
                &&& final(self).state_coherent()
                &&& final(self).lower_view() == overwrite(old(self).lower_view(), line.base_addr as int, line.data@)
            },
    {
        let ghost s0 = *self;
        let ghost ls = self.line_len();
        let ghost n = self.mem_len();
        let ghost b = line.base_addr as int;
        let ghost coh = s0.state_coherent() && (!line.dirty ==> forall|k: int|
            0 <= k < s0.line_len() ==> #[trigger] line.data@[k] == s0.backing.view()[line.base_addr + k]);
        let last_used = line.last_used;
        match self.find_backup_slot(line.base_addr) {
            Some(j) => {
                let entry = CachedLine { used: false, last_used, ..line };
                put_slot(&mut self.backup, j, entry);
                proof {
                    assert(present(s0.backup@, j as int));
                    assert(same_content(s0.backup@, self.backup@)) by {
                        assert forall|i: int| #[trigger] present(self.backup@, i) == present(s0.backup@, i) by {}
                        assert forall|i: int| #[trigger] present(self.backup@, i) implies {
                            &&& at(self.backup@, i).base_addr == at(s0.backup@, i).base_addr
                            &&& at(self.backup@, i).data@ == at(s0.backup@, i).data@
                            &&& at(self.backup@, i).dirty == at(s0.backup@, i).dirty
                        } by {}
                    }
                    lemma_same_content(s0.backup@, self.backup@, ls, n, s0.backing.view());
                    assert forall|i: int| #[trigger] present(self.backup@, i) implies {
                        &&& self.enabled@[i]
                        &&& line_accessible(self.backing, at(self.backup@, i).base_addr as int, self.line_len())
                    } by {
                        assert(present(s0.backup@, i));
                    }
                    assert forall|i: int, k: int|
                        #![trigger present(self.primary@, i), present(self.backup@, k)]
                        present(self.primary@, i) && present(self.backup@, k) && at(self.primary@, i).base_addr
                            == at(self.backup@, k).base_addr implies {
                            &&& at(self.primary@, i).data@ == at(self.backup@, k).data@
                            &&& at(self.primary@, i).dirty == at(self.backup@, k).dirty
                        } by {
                        assert(present(s0.backup@, k));
                        assert(present(s0.primary@, i));
                    }
                    if coh {
                        assert forall|k: int| 0 <= k < ls implies #[trigger] line.data@[k] == s0.lower_view()[b + k] by {
                            assert(covers(s0.backup@, ls, j as int, b + k));
                            lemma_overlay_hit(s0.backup@, ls, n, s0.backing.view(), j as int, b + k);
                        }
                        lemma_overwrite_same(s0.lower_view(), b, line.data@);
                    }
                }
                return;
            },
            None => {},
        }
        let enabled = self.current_enabled_lines();
        if enabled == 0 {
            if line.dirty {
                write_line(&mut self.backing, &mut self.pending, line.base_addr, &line.data, clock);
                self.charge(self.timing.write_back, clock);
            }
            return;
        }
        let victim = self.select_backup_victim();
        let ghost s1 = *self;
        self.evict_backup_slot_if_needed(victim, clock);
        let ghost s2 = *self;
        let entry = CachedLine { used: false, last_used, ..line };
        let ghost e = entry;
        put_slot(&mut self.backup, victim, entry);
        proof {
            assert(!present(s2.backup@, victim as int));
            assert(!holds_base(s2.backup@, b)) by {
                if holds_base(s2.backup@, b) {
                    let i = choose|i: int| holds(s2.backup@, i, b);
                    assert(holds(s0.backup@, i, b));
                }
            }
            assert forall|i: int| i != victim implies !#[trigger] holds(s2.backup@, i, b) by {}
            Self::lemma_lines_backing(s0, s1);
            assert(line_accessible(s2.backing, b, ls)) by {
                assert forall|k: int| 0 <= k < ls implies #[trigger] s2.backing.accessible(b + k) by {
                    assert(s0.backing.accessible(b + k));
                }
            }
            lemma_overlay_put(s2.backup@, ls, n, s2.backing.view(), victim as int, e);
            assert forall|i: int| #[trigger] present(self.backup@, i) implies {
                &&& self.enabled@[i]
                &&& line_accessible(self.backing, at(self.backup@, i).base_addr as int, self.line_len())
            } by {
                if i != victim {
                    assert(present(s2.backup@, i));
                }
            }
            assert forall|i: int, k: int|
                #![trigger present(self.primary@, i), present(self.backup@, k)]
                present(self.primary@, i) && present(self.backup@, k) && at(self.primary@, i).base_addr
                    == at(self.backup@, k).base_addr implies {
                    &&& at(self.primary@, i).data@ == at(self.backup@, k).data@
                    &&& at(self.primary@, i).dirty == at(self.backup@, k).dirty
                } by {
                assert(present(s2.primary@, i));
                if k == victim {
                    assert(holds(s0.primary@, i, b));
                } else {
                    assert(present(s2.backup@, k));
                }
            }
            if coh {
                assert(s1.lower_view() == s0.lower_view());
                if !e.dirty {
                    assert forall|k: int| 0 <= k < ls implies #[trigger] e.data@[k] == s2.backing.view()[b + k] by {
                        s0.lemma_lower_uncovered(b, k);
                        s2.lemma_lower_uncovered(b, k);
                        assert(line.data@[k] == s0.backing.view()[b + k]);
                    }
                }
                lemma_clean_put(s2.backup@, ls, s2.backing.view(), victim as int, e);
            }
            assert forall|c: int| #[trigger] holds_base(self.backup@, c) implies holds_base(s0.backup@, c) || c == b by {
                let i = choose|i: int| holds(self.backup@, i, c);
                if i != victim {
                    assert(holds(s2.backup@, i, c));
                    assert(holds(s1.backup@, i, c));
                    assert(holds(s0.backup@, i, c));
                }
            }
        }
    }
}

impl<M: MemoryDevice> BackCacheMemory<M> {
    /// A line that no way of its set holds is not in the primary array.
    proof fn lemma_not_in_set(&self, b: int, set_idx: int)
        requires
            self.core_wf(),
            set_idx == self.set_of(b),
            0 <= set_idx < self.num_sets,
            forall|j: int|
                set_idx * self.associativity <= j < set_idx * self.associativity + self.associativity
                    ==> !#[trigger] holds(self.primary@, j, b),
        ensures
            !holds_base(self.primary@, b),
    {
        if holds_base(self.primary@, b) {
            let i = choose|i: int| holds(self.primary@, i, b);
            assert(present(self.primary@, i));
            let ways = self.associativity as int;
            let v = i % ways;
            vstd::arithmetic::div_mod::lemma_fundamental_div_mod(i, ways);
            assert(i == set_idx * ways + v) by (nonlinear_arith)
                requires
                    i == ways * (i / ways) + v,
                    i / ways == set_idx,
            ;
            assert(!holds(self.primary@, set_idx * ways + v, b));
        }
    }

    /// Installing `l` into primary slot `v` keeps the cache well formed;
    /// the line it replaces can then move to the backup buffer, and the
    /// cache shows `l` over its addresses once it has.
    proof fn lemma_install(s1: Self, s3: Self, v: int, l: CachedLine, coh: bool)
        requires
            s1.state_wf(),
            0 <= v < s1.capacity(),
            v / (s1.associativity as int) == s1.set_of(l.base_addr as int),
            !holds_base(s1.primary@, l.base_addr as int),
            l.data@.len() == s1.line_len(),
            (l.base_addr as int) % s1.line_len() == 0,
            line_accessible(s1.backing, l.base_addr as int, s1.line_len()),
            forall|j: int| #[trigger] holds(s1.backup@, j, l.base_addr as int) ==> {
                &&& at(s1.backup@, j).data@ == l.data@
                &&& at(s1.backup@, j).dirty == l.dirty
            },
            coh ==> s1.state_coherent(),
            coh && !l.dirty ==> forall|k: int|
                0 <= k < s1.line_len() ==> #[trigger] l.data@[k] == s1.backing.view()[l.base_addr + k],
            s3 == (Self { primary: s3.primary, ..s1 }),
            s3.primary@ == s1.primary@.update(v, Some(l)),
        ensures
            s3.state_wf(),
            present(s1.primary@, v) ==> {
                let e = at(s1.primary@, v);
                &&& !holds_base(s3.primary@, e.base_addr as int)
                &&& e.data@.len() == s3.line_len()
                &&& (e.base_addr as int) % s3.line_len() == 0
                &&& e.base_addr + s3.line_len() <= s3.mem_len()
                &&& line_accessible(s3.backing, e.base_addr as int, s3.line_len())
                &&& forall|j: int| #[trigger] holds(s3.backup@, j, e.base_addr as int) ==> {
                    &&& at(s3.backup@, j).data@ == e.data@
                    &&& at(s3.backup@, j).dirty == e.dirty
                }
                &&& s1.state_coherent() && !e.dirty ==> forall|k: int|
                    0 <= k < s3.line_len() ==> #[trigger] e.data@[k] == s3.backing.view()[e.base_addr + k]
            },
            coh ==> {
                &&& s3.state_coherent()
                &&& overlay(
                    s3.primary@,
                    s3.line_len(),
                    if present(s1.primary@, v) {
                        overwrite(s1.lower_view(), at(s1.primary@, v).base_addr as int, at(s1.primary@, v).data@)
                    } else {
                        s1.lower_view()
                    },
                ) == overwrite(s1.full_view(), l.base_addr as int, l.data@)
            },
    {
        let ls = s1.line_len();
        let n = s1.mem_len();
        let b = l.base_addr as int;
        let p1 = s1.primary@;
        let p3 = s3.primary@;
        assert(line_accessible(s1.backing, b, ls));
        assert(s1.backing.accessible(b + (ls - 1)));
        s1.backing.lemma_accessible_in_range(b + (ls - 1));
        assert forall|j: int| j != v implies !#[trigger] holds(p1, j, b) by {}
        lemma_table_replace(p1, ls, n, v, l);
        assert forall|i: int| #[trigger] present(p3, i) implies {
            &&& s3.set_of(at(p3, i).base_addr as int) == i / (s3.associativity as int)
            &&& line_accessible(s3.backing, at(p3, i).base_addr as int, s3.line_len())
        } by {
            if i != v {
                assert(present(p1, i));
            }
        }
        assert forall|i: int, j: int|
            #![trigger present(p3, i), present(s3.backup@, j)]
            present(p3, i) && present(s3.backup@, j) && at(p3, i).base_addr == at(s3.backup@, j).base_addr implies {
                &&& at(p3, i).data@ == at(s3.backup@, j).data@
                &&& at(p3, i).dirty == at(s3.backup@, j).dirty
            } by {
            if i != v {
                assert(present(p1, i));
            } else {
                assert(holds(s1.backup@, j, b));
            }
        }
        if present(p1, v) {
            let e = at(p1, v);
            assert(present(p1, v));
            assert(!holds_base(p3, e.base_addr as int)) by {
                if holds_base(p3, e.base_addr as int) {
                    let i = choose|i: int| holds(p3, i, e.base_addr as int);
                    if i == v {
                        assert(holds(p1, v, b));
                    } else {
                        assert(present(p1, i) && present(p1, v));
                    }
                }
            }
            assert forall|j: int| #[trigger] holds(s3.backup@, j, e.base_addr as int) implies {
                &&& at(s3.backup@, j).data@ == e.data@
                &&& at(s3.backup@, j).dirty == e.dirty
            } by {
                assert(present(p1, v) && present(s1.backup@, j));
            }
            if s1.state_coherent() && !e.dirty {
                assert(line_matches(p1, ls, s1.backing.view(), v));
            }
        }
        if coh {
            s1.lemma_primary_clean_lower();
            lemma_clean_put(p1, ls, s1.backing.view(), v, l);
            lemma_refill_view(
                p1,
                ls,
                n,
                s1.lower_view(),
                if present(p1, v) {
                    overwrite(s1.lower_view(), at(p1, v).base_addr as int, at(p1, v).data@)
                } else {
                    s1.lower_view()
                },
                v,
                l,
            );
        }
    }

    /// Dropping the primary line of slot `i`, written back when dirty,
    /// keeps the cache consistent and every byte it shows.
    proof fn lemma_primary_remove(s1: Self, s2: Self, i: int)
        requires
            s1.core_wf(),
            present(s1.primary@, i),
            s2.primary@ == s1.primary@.update(i, None),
            s2.backup@ == s1.backup@,
            s2.enabled@ == s1.enabled@,
            s2.line_size == s1.line_size,
            s2.num_sets == s1.num_sets,
            s2.associativity == s1.associativity,
            s2.policy == s1.policy,
            backing_frame(s2.backing, s1.backing),
            s1.state_coherent() ==> {
                &&& backing_sound(s2.backing)
                &&& s2.backing.view() == if at(s1.primary@, i).dirty {
                    overwrite(s1.backing.view(), at(s1.primary@, i).base_addr as int, at(s1.primary@, i).data@)
                } else {
                    s1.backing.view()
                }
            },
        ensures
            s2.core_wf(),
            s2.enabled_count() == s1.enabled_count(),
            s1.state_coherent() ==> s2.state_coherent() && s2.full_view() == s1.full_view(),
    {
        let ls = s1.line_len();
        let n = s1.mem_len();
        let x = at(s1.primary@, i);
        let p1 = s1.primary@;
        let p2 = s2.primary@;
        assert forall|j: int| #[trigger] present(p2, j) implies present(p1, j) && at(p2, j) == at(p1, j) && j != i by {}
        assert forall|j: int, k: int|
            #![trigger present(p2, j), present(p2, k)]
            present(p2, j) && present(p2, k) && at(p2, j).base_addr == at(p2, k).base_addr implies j == k by {
            assert(present(p1, j) && present(p1, k));
        }
        assert forall|j: int| #[trigger] present(p2, j) implies {
            &&& at(p2, j).data@.len() == ls
            &&& (at(p2, j).base_addr as int) % ls == 0
            &&& at(p2, j).base_addr + ls <= n
        } by {
            assert(present(p1, j));
        }
        assert forall|j: int| #[trigger] present(p2, j) implies {
            &&& s2.set_of(at(p2, j).base_addr as int) == j / (s2.associativity as int)
            &&& line_accessible(s2.backing, at(p2, j).base_addr as int, s2.line_len())
        } by {
            assert(present(p1, j));
            assert(line_accessible(s1.backing, at(p1, j).base_addr as int, ls));
            assert forall|k: int| 0 <= k < ls implies #[trigger] s2.backing.accessible(at(p2, j).base_addr + k) by {
                assert(s1.backing.accessible(at(p1, j).base_addr + k));
            }
        }
        assert forall|j: int| #[trigger] present(s2.backup@, j) implies {
            &&& s2.enabled@[j]
            &&& line_accessible(s2.backing, at(s2.backup@, j).base_addr as int, s2.line_len())
        } by {
            assert(present(s1.backup@, j));
            assert(line_accessible(s1.backing, at(s1.backup@, j).base_addr as int, ls));
            assert forall|k: int| 0 <= k < ls implies #[trigger] s2.backing.accessible(at(s2.backup@, j).base_addr + k) by {
                assert(s1.backing.accessible(at(s1.backup@, j).base_addr + k));
            }
        }
        assert forall|j: int, k: int|
            #![trigger present(p2, j), present(s2.backup@, k)]
            present(p2, j) && present(s2.backup@, k) && at(p2, j).base_addr == at(s2.backup@, k).base_addr implies {
                &&& at(p2, j).data@ == at(s2.backup@, k).data@
                &&& at(p2, j).dirty == at(s2.backup@, k).dirty
            } by {
            assert(present(p1, j));
        }
        if s1.state_coherent() {
            let b = x.base_addr as int;
            let m1 = s1.backing.view();
            s1.lemma_primary_clean_lower();
            lemma_overlay_remove(p1, ls, n, m1, i);
            lemma_overlay_remove(p1, ls, n, s1.lower_view(), i);
            if x.dirty {
                assert forall|j: int| #[trigger] holds(s1.backup@, j, b) && !at(s1.backup@, j).dirty implies at(s1.backup@, j).data@ == x.data@ by {
                    assert(present(p1, i) && present(s1.backup@, j));
                }
                lemma_clean_overwrite(s1.backup@, ls, n, m1, b, x.data@);
                if holds_base(s1.backup@, b) {
                    let j = choose|j: int| holds(s1.backup@, j, b);
                    assert(present(p1, i) && present(s1.backup@, j));
                    lemma_overlay_overwrite_held(s1.backup@, ls, n, m1, b, x.data@);
                    assert forall|k: int| 0 <= k < ls implies #[trigger] x.data@[k] == s1.lower_view()[b + k] by {
                        assert(covers(s1.backup@, ls, j, b + k));
                        lemma_overlay_hit(s1.backup@, ls, n, m1, j, b + k);
                    }
                    lemma_overwrite_same(s1.lower_view(), b, x.data@);
                } else {
                    lemma_overlay_overwrite(s1.backup@, ls, n, m1, b, x.data@);
                }
            }
        }
    }

    /// Drops the primary copy of the line `base_addr`, writing it back when dirty.
    fn invalidate_matching_primary_line(&mut self, base_addr: usize, clock: &mut Clock)
        requires
            old(self).state_wf(),
        ensures
            final(self).state_wf(),
            final(self).primary@ == without_lines(old(self).primary@, set![base_addr as int]),
            final(self).backup@ == old(self).backup@,
            final(self).enabled@ == old(self).enabled@,
            holds_base(old(self).primary@, base_addr as int) && old(self).timed ==> final(clock)@ >= saturating_tick(
                old(clock)@,
                old(self).timing.invalidation_apply,
            ),
            final(self).same_frame(old(self)),
            final(self).resize_countdown == old(self).resize_countdown,
            final(self).use_counter == old(self).use_counter,
            final(clock)@ >= old(clock)@,
            final(self).backing.fixed_costs() == old(self).backing.fixed_costs(),
            old(self).backing.fixed_costs() matches Some(c) ==> final(clock)@ == tick_by(
                old(clock)@,
                drop_cost(old(self).primary@, base_addr as int, old(self).line_len(), c.1, (if old(self).timed { old(self).timing.write_back as int } else { 0 }), (if old(self).timed { old(self).timing.invalidation_apply as int } else { 0 })),
            ),
            old(self).state_coherent() ==> final(self).state_coherent() && final(self).full_view()
                == old(self).full_view(),
    {
        let set_idx = self.set_index(base_addr);
        proof {
            lemma_slot_index(set_idx as int, 0, self.associativity as int, self.num_sets as int);
            lemma_slot_index(set_idx as int, self.associativity - 1, self.associativity as int, self.num_sets as int);
        }
        let lo = set_idx * self.associativity;
        let hi = lo + self.associativity;
        match find_in(&self.primary, lo, hi, base_addr) {
            Some(i) => {
                let ghost s1 = *self;
                let removed = take_slot(&mut self.primary, i);
                match removed {
                    Some(line) => {
                        proof {
                            assert(present(s1.primary@, i as int));
                            assert(line_accessible(s1.backing, line.base_addr as int, s1.line_len()));
                        }
                        let ghost c0 = clock@;
                        if line.dirty {
                            write_line(&mut self.backing, &mut self.pending, line.base_addr, &line.data, clock);
                            self.charge(self.timing.write_back, clock);
                            proof {
                                if let Some(c) = s1.backing.fixed_costs() {
                                    lemma_tick_by_twice(c0, s1.line_len() * c.1, if s1.timed { s1.timing.write_back as int } else { 0 });
                                }
                            }
                        }
                        proof {
                            Self::lemma_primary_remove(s1, *self, i as int);
                            lemma_without_one(s1.primary@, base_addr as int, i as int);
                        }
                        let ghost c1 = clock@;
                        self.charge(self.timing.invalidation_apply, clock);
                        proof {
                            let k = choose|k: int| holds(s1.primary@, k, base_addr as int);
                            assert(holds(s1.primary@, i as int, base_addr as int));
                            assert(holds(s1.primary@, k, base_addr as int));
                            assert(present(s1.primary@, k) && present(s1.primary@, i as int));
                            assert(k == i);
                            if let Some(c) = s1.backing.fixed_costs() {
                                let w: int = if line.dirty { s1.line_len() * c.1 + (if s1.timed { s1.timing.write_back as int } else { 0 }) } else { 0 };
                                lemma_tick_by_twice(c0, w, if s1.timed { s1.timing.invalidation_apply as int } else { 0 });
                            }
                        }
                    },
                    None => {},
                }
            },
            None => {
                proof {
                    assert forall|j: int| !#[trigger] holds(self.primary@, j, base_addr as int) by {
                        if holds(self.primary@, j, base_addr as int) {
                            let ls = self.line_len();
                            lemma_base_of(base_addr as int, base_addr as int, ls);
                            lemma_slot_in_set(j, set_idx as int, self.associativity as int);
                        }
                    }
                    lemma_without_unheld(self.primary@, base_addr as int);
                }
            },
        }
    }

    /// Drops the backup copy of the line `base_addr`, writing it back when dirty.
    fn invalidate_matching_backup_line(&mut self, base_addr: usize, clock: &mut Clock)
        requires
            old(self).state_wf(),
        ensures
            final(self).state_wf(),
            final(self).primary@ == old(self).primary@,
            final(self).backup@ == without_lines(old(self).backup@, set![base_addr as int]),
            final(self).enabled@ == old(self).enabled@,
            holds_base(old(self).backup@, base_addr as int) && old(self).timed ==> final(clock)@ >= saturating_tick(
                old(clock)@,
                old(self).timing.invalidation_apply,
            ),
            final(self).same_frame(old(self)),
            final(self).resize_countdown == old(self).resize_countdown,
            final(self).use_counter == old(self).use_counter,
            final(clock)@ >= old(clock)@,
            final(self).backing.fixed_costs() == old(self).backing.fixed_costs(),
            old(self).backing.fixed_costs() matches Some(c) ==> final(clock)@ == tick_by(
                old(clock)@,
                drop_cost(old(self).backup@, base_addr as int, old(self).line_len(), c.1, (if old(self).timed { old(self).timing.write_back as int } else { 0 }), (if old(self).timed { old(self).timing.invalidation_apply as int } else { 0 })),
            ),
            old(self).state_coherent() ==> final(self).state_coherent() && final(self).full_view()
                == old(self).full_view(),
    {
        match self.find_backup_slot(base_addr) {
            Some(j) => {
                proof {
                    lemma_without_one(self.backup@, base_addr as int, j as int);
                }
                let ghost c0 = clock@;
                self.evict_backup_slot_if_needed(j, clock);
                let ghost c1 = clock@;
                self.charge(self.timing.invalidation_apply, clock);
                proof {
                    let k = choose|k: int| holds(old(self).backup@, k, base_addr as int);
                    assert(holds(old(self).backup@, j as int, base_addr as int));
                    assert(holds(old(self).backup@, k, base_addr as int));
                    assert(present(old(self).backup@, k) && present(old(self).backup@, j as int));
                    assert(k == j);
                    if let Some(c) = old(self).backing.fixed_costs() {
                        let w: int = match old(self).backup@[j as int] {
                            Some(l) => if l.dirty { old(self).line_len() * c.1 + (if old(self).timed { old(self).timing.write_back as int } else { 0 }) } else { 0 },
                            None => 0,
                        };
                        lemma_tick_by_twice(c0, w, (if old(self).timed { old(self).timing.invalidation_apply as int } else { 0 }));
                    }
                }
            },
            None => {
                proof {
                    lemma_without_unheld(self.backup@, base_addr as int);
                }
            },
        }
    }

    /// Drops both copies of the line `base_addr`.
    fn invalidate_both(&mut self, base_addr: usize, clock: &mut Clock)
        requires
            old(self).state_wf(),
        ensures
            final(self).state_wf(),
            final(self).primary@ == without_lines(old(self).primary@, set![base_addr as int]),
            final(self).backup@ == without_lines(old(self).backup@, set![base_addr as int]),
            final(self).enabled@ == old(self).enabled@,
            (holds_base(old(self).primary@, base_addr as int) || holds_base(old(self).backup@, base_addr as int))
                && old(self).timed ==> final(clock)@ >= saturating_tick(old(clock)@, old(self).timing.invalidation_apply),
            old(self).backing.fixed_costs() matches Some(c) ==> final(clock)@ == tick_by(
                old(clock)@,
                drop_cost(old(self).primary@, base_addr as int, old(self).line_len(), c.1, (if old(self).timed { old(self).timing.write_back as int } else { 0 }), (if old(self).timed { old(self).timing.invalidation_apply as int } else { 0 }))
                    + drop_cost(old(self).backup@, base_addr as int, old(self).line_len(), c.1, (if old(self).timed { old(self).timing.write_back as int } else { 0 }), (if old(self).timed { old(self).timing.invalidation_apply as int } else { 0 })),
            ),
            final(self).same_frame(old(self)),
            final(self).resize_countdown == old(self).resize_countdown,
            final(self).use_counter == old(self).use_counter,
            final(clock)@ >= old(clock)@,
            old(self).state_coherent() ==> final(self).state_coherent() && final(self).full_view()
                == old(self).full_view(),
    {
        let ghost s0 = *self;
        let ghost c0 = clock@;
        self.invalidate_matching_primary_line(base_addr, clock);
        let ghost s1 = *self;
        let ghost c1 = clock@;
        self.invalidate_matching_backup_line(base_addr, clock);
        proof {
            Self::lemma_frame_trans(s0, s1, *self);
            if let Some(c) = s0.backing.fixed_costs() {
                let wb: int = if s0.timed { s0.timing.write_back as int } else { 0 };
                let ap: int = if s0.timed { s0.timing.invalidation_apply as int } else { 0 };
                lemma_tick_by_twice(
                    c0,
                    drop_cost(s0.primary@, base_addr as int, s0.line_len(), c.1, wb, ap),
                    drop_cost(s0.backup@, base_addr as int, s0.line_len(), c.1, wb, ap),
                );
            }
        }
    }

    /// Drops the lines that the level below has evicted since the last access.
    fn apply_pending(&mut self, clock: &mut Clock)
        requires
            old(self).state_wf(),
        ensures
            final(self).state_wf(),
            final(self).primary@ == without_lines(old(self).primary@, addr_set(old(self).pending@)),
            final(self).backup@ == without_lines(old(self).backup@, addr_set(old(self).pending@)),
            final(self).enabled@ == old(self).enabled@,
            final(self).same_frame(old(self)),
            final(self).resize_countdown == old(self).resize_countdown,
            final(self).use_counter == old(self).use_counter,
            final(clock)@ >= old(clock)@,
            old(self).pending@.len() == 0 ==> final(self).primary@ == old(self).primary@ && final(clock)@ == old(clock)@
                && final(self).backing == old(self).backing,
            old(self).state_coherent() ==> final(self).state_coherent() && final(self).full_view()
                == old(self).full_view(),
    {
        let mut addrs: Vec<usize> = Vec::new();
        std::mem::swap(&mut addrs, &mut self.pending);
        proof {
            Self::lemma_lines_backing(*old(self), *self);
            lemma_without_nothing(old(self).primary@);
            lemma_without_nothing(old(self).backup@);
            if addrs@.len() > 0 {
                lemma_addr_set_step(addrs@, 0);
            } else {
                assert(addrs@.subrange(0, 0) =~= addrs@);
            }
        }
        let mut k: usize = 0;
        while k < addrs.len()
            invariant
                self.state_wf(),
                addrs@ == old(self).pending@,
                self.primary@ == without_lines(old(self).primary@, addr_set(addrs@.subrange(0, k as int))),
                self.backup@ == without_lines(old(self).backup@, addr_set(addrs@.subrange(0, k as int))),
                self.enabled@ == old(self).enabled@,
                self.same_frame(old(self)),
                self.resize_countdown == old(self).resize_countdown,
                self.use_counter == old(self).use_counter,
                k <= addrs@.len(),
                clock@ >= old(clock)@,
                addrs@.len() == old(self).pending@.len(),
                addrs@.len() == 0 ==> self.primary@ == old(self).primary@ && clock@ == old(clock)@
                    && self.backing == old(self).backing,
                old(self).state_coherent() ==> self.state_coherent() && self.full_view() == old(self).full_view(),
            decreases addrs@.len() - k,
        {
            let ghost s0 = *self;
            self.invalidate_both(addrs[k], clock);
            proof {
                Self::lemma_frame_trans(*old(self), s0, *self);
                lemma_addr_set_step(addrs@, k as int);
                let gone = addr_set(addrs@.subrange(0, k as int));
                lemma_without_twice(old(self).primary@, gone, set![addrs@[k as int] as int]);
                lemma_without_twice(old(self).backup@, gone, set![addrs@[k as int] as int]);
            }
            k = k + 1;
        }
        proof {
            assert(addrs@.subrange(0, addrs@.len() as int) =~= addrs@);
        }
    }
}

impl<M: MemoryDevice> BackCacheMemory<M> {
    /// Whether the line of `a` lies in memory the level below can access.
    pub closed spec fn can_access(&self, a: int) -> bool {
        &&& 0 <= a
        &&& line_accessible(self.backing, self.base_of(a), self.line_len())
    }

    proof fn lemma_can_access(&self, a: int)
        requires
            self.core_wf(),
            self.can_access(a),
        ensures
            0 <= a < self.mem_len(),
            self.base_of(a) >= 0,
            self.base_of(a) % self.line_len() == 0,
            self.base_of(a) <= a < self.base_of(a) + self.line_len(),
            self.base_of(a) + self.line_len() <= self.mem_len(),
            self.mem_len() <= usize::MAX,
    {
        let ls = self.line_len();
        lemma_base_of_props(a, ls);
        let b = self.base_of(a);
        assert(self.backing.accessible(b + (a - b)));
        assert(self.backing.accessible(b + (ls - 1)));
        self.backing.lemma_accessible_in_range(b + (ls - 1));
        self.backing.lemma_accessible_in_range(a);
    }

    /// The line that `a` belongs to is held by the slot that covers `a`.
    proof fn lemma_cover_base(t: Seq<Option<CachedLine>>, ls: int, n: int, i: int, a: int)
        requires
            table_wf(t, ls, n),
            covers(t, ls, i, a),
        ensures
            (a / ls) * ls == at(t, i).base_addr,
            a % ls == a - at(t, i).base_addr,
    {
        assert(present(t, i));
        lemma_base_of(a, at(t, i).base_addr as int, ls);
    }

    /// A slot covers `a` exactly when it holds the line of `a`.
    proof fn lemma_holds_covers(t: Seq<Option<CachedLine>>, ls: int, n: int, a: int)
        requires
            table_wf(t, ls, n),
            0 <= a,
        ensures
            forall|i: int| #[trigger] covers(t, ls, i, a) <==> holds(t, i, (a / ls) * ls),
            !holds_base(t, (a / ls) * ls) ==> forall|i: int| !#[trigger] covers(t, ls, i, a),
    {
        lemma_base_of_props(a, ls);
        assert forall|i: int| #[trigger] covers(t, ls, i, a) <==> holds(t, i, (a / ls) * ls) by {
            if covers(t, ls, i, a) {
                Self::lemma_cover_base(t, ls, n, i, a);
            }
            if holds(t, i, (a / ls) * ls) {
                assert(present(t, i));
            }
        }
        if !holds_base(t, (a / ls) * ls) {
            assert forall|i: int| !#[trigger] covers(t, ls, i, a) by {
                if covers(t, ls, i, a) {
                    assert(holds(t, i, (a / ls) * ls));
                }
            }
        }
    }

    /// Marks backup slot `j` as hit, at use count `use_count`.
    fn touch_backup(&mut self, j: usize, use_count: usize)
        requires
            old(self).state_wf(),
            present(old(self).backup@, j as int),
        ensures
            final(self).state_wf(),
            *final(self) == (Self { backup: final(self).backup, ..*old(self) }),
            same_content(old(self).backup@, final(self).backup@),
            present(final(self).backup@, j as int),
            at(final(self).backup@, j as int).used,
            old(self).state_coherent() ==> final(self).state_coherent() && final(self).full_view()
                == old(self).full_view() && final(self).lower_view() == old(self).lower_view(),
    {
        let ghost s0 = *self;
        let slot = take_slot(&mut self.backup, j);
        match slot {
            Some(mut line) => {
                line.last_used = use_count;
                line.used = true;
                put_slot(&mut self.backup, j, line);
            },
            None => {},
        }
        proof {
            let o = s0.backup@;
            let now = self.backup@;
            assert forall|i: int| #[trigger] present(now, i) == present(o, i) by {}
            assert forall|i: int| #[trigger] present(now, i) implies {
                &&& at(now, i).base_addr == at(o, i).base_addr
                &&& at(now, i).data@ == at(o, i).data@
                &&& at(now, i).dirty == at(o, i).dirty
            } by {}
            lemma_same_content(o, now, s0.line_len(), s0.mem_len(), s0.backing.view());
            assert forall|i: int| #[trigger] present(now, i) implies {
                &&& self.enabled@[i]
                &&& line_accessible(self.backing, at(now, i).base_addr as int, self.line_len())
            } by {
                assert(present(o, i));
            }
            assert forall|i: int, k: int|
                #![trigger present(self.primary@, i), present(now, k)]
                present(self.primary@, i) && present(now, k) && at(self.primary@, i).base_addr
                    == at(now, k).base_addr implies {
                    &&& at(self.primary@, i).data@ == at(now, k).data@
                    &&& at(self.primary@, i).dirty == at(now, k).dirty
                } by {
                assert(present(o, k));
            }
        }
    }

    /// Loads the byte at `addr`; `charge_timing` says whether the access is
    /// charged (the later bytes of a wide access that stay in one line are not).
    #[verifier::rlimit(40)]
    fn load_u8_internal(&mut self, addr: usize, charge_timing: bool, clock: &mut Clock) -> (r: u8)
        requires
            old(self).state_wf(),
            old(self).can_access(addr as int),
        ensures
            old(self).pending@.len() == 0 && !holds_base(old(self).primary@, old(self).base_of(addr as int)) && !holds_base(
                old(self).backup@,
                old(self).base_of(addr as int),
            ) && old(self).set_has_room(addr as int) && old(self).resize_countdown > 1 ==> (old(self).backing.fixed_costs() matches Some(
                c,
            ) ==> final(clock)@ == tick_by(
                old(clock)@,
                old(self).line_len() * c.0 + (if charge_timing && old(self).timed { old(self).timing.load_miss as int } else { 0 }),
            )),
            holds_base(final(self).primary@, old(self).base_of(addr as int)),
            final(self).state_wf(),
            final(self).same_frame(old(self)),
            old(self).pending@.len() == 0 && holds_base(old(self).primary@, old(self).base_of(addr as int))
                && old(self).resize_countdown > 1 ==> final(clock)@ == saturating_tick(
                old(clock)@,
                if charge_timing && old(self).timed { old(self).timing.load_hit } else { 0 },
            ),
            old(self).pending@.len() == 0 && !holds_base(old(self).primary@, old(self).base_of(addr as int))
                && holds_base(old(self).backup@, old(self).base_of(addr as int)) && old(self).set_has_room(addr as int)
                && old(self).resize_countdown > 1 ==> final(clock)@ == saturating_tick(
                old(clock)@,
                if charge_timing && old(self).timed { old(self).timing.load_hit } else { 0 },
            ),
            old(self).pending@.len() == 0 && !holds_base(old(self).primary@, old(self).base_of(addr as int))
                && !holds_base(old(self).backup@, old(self).base_of(addr as int)) ==> final(clock)@ >= saturating_tick(
                old(clock)@,
                if charge_timing && old(self).timed { old(self).timing.load_miss } else { 0 },
            ),
            final(clock)@ >= old(clock)@,
            old(self).state_coherent() ==> {
                &&& final(self).state_coherent()
                &&& final(self).full_view() == old(self).full_view()
                &&& r == old(self).full_view()[addr as int]
            },
    {
        self.apply_pending(clock);
        let ghost s0 = *self;
        let ghost c0 = clock@;
        proof {
            if old(self).pending@.len() == 0 {
                assert(addr_set(old(self).pending@) =~= Set::<int>::empty());
                lemma_without_nothing(old(self).backup@);
            }
        }
        proof {
            assert forall|k: int| 0 <= k < self.line_len() implies #[trigger] self.backing.accessible(self.base_of(addr as int) + k) by {
                assert(old(self).backing.accessible(old(self).base_of(addr as int) + k));
            }
            self.lemma_can_access(addr as int);
        }
        let ghost ls = self.line_len();
        let ghost n = self.mem_len();
        let ghost a = addr as int;
        let base = self.line_base(addr);
        let set_idx = self.set_index(addr);
        let offset = addr % self.line_size;
        let use_count = self.next_use_counter();
        proof {
            lemma_slot_index(set_idx as int, 0, self.associativity as int, self.num_sets as int);
            lemma_slot_index(set_idx as int, self.associativity - 1, self.associativity as int, self.num_sets as int);
            Self::lemma_holds_covers(s0.primary@, ls, n, a);
            Self::lemma_holds_covers(s0.backup@, ls, n, a);
            lemma_base_of_props(a, ls);
        }
        let lo = set_idx * self.associativity;
        let ghost s1 = *self;
        match find_in(&self.primary, lo, lo + self.associativity, base) {
            Some(way) => {
                let slot = take_slot(&mut self.primary, way);
                match slot {
                    Some(mut line) => {
                        line.last_used = use_count;
                        proof {
                            assert(present(s1.primary@, way as int));
                            assert(line.data@.len() == ls);
                        }
                        let byte = line.data[offset];
                        put_slot(&mut self.primary, way, line);
                        proof {
                            let o = s1.primary@;
                            let now = self.primary@;
                            assert forall|i: int| #[trigger] present(now, i) == present(o, i) by {}
                            assert forall|i: int| #[trigger] present(now, i) implies {
                                &&& at(now, i).base_addr == at(o, i).base_addr
                                &&& at(now, i).data@ == at(o, i).data@
                                &&& at(now, i).dirty == at(o, i).dirty
                            } by {}
                            lemma_same_content(o, now, ls, n, s1.backing.view());
                            lemma_same_content(o, now, ls, n, s1.lower_view());
                            assert forall|i: int| #[trigger] present(now, i) implies {
                                &&& self.set_of(at(now, i).base_addr as int) == i / (self.associativity as int)
                                &&& line_accessible(self.backing, at(now, i).base_addr as int, self.line_len())
                            } by {
                                assert(present(o, i));
                            }
                            assert forall|i: int, k: int|
                                #![trigger present(now, i), present(self.backup@, k)]
                                present(now, i) && present(self.backup@, k) && at(now, i).base_addr
                                    == at(self.backup@, k).base_addr implies {
                                    &&& at(now, i).data@ == at(self.backup@, k).data@
                                    &&& at(now, i).dirty == at(self.backup@, k).dirty
                                } by {
                                assert(present(o, i));
                            }
                            if s0.state_coherent() {
                                assert(covers(o, ls, way as int, a));
                                lemma_overlay_hit(o, ls, n, s1.lower_view(), way as int, a);
                                Self::lemma_cover_base(o, ls, n, way as int, a);
                            }
                        }
                        match self.find_backup_slot(base) {
                            Some(j) => {
                                self.touch_backup(j, use_count);
                            },
                            None => {},
                        }
                        if charge_timing {
                            self.charge(self.timing.load_hit, clock);
                        }
                        self.access_complete(clock);
                        proof {
                            assert(holds(self.primary@, way as int, base as int));
                        }
                        return byte;
                    },
                    None => {
                        proof {
                            assert(false);
                        }
                    },
                }
            },
            None => {
                proof {
                    self.lemma_not_in_set(base as int, set_idx as int);
                }
            },
        }
        proof {
            assert(self.primary@ =~= s1.primary@);
        }
        let ghost s2 = *self;
        let from_backup = self.find_backup_slot(base).is_some();
        let new_line = match self.find_backup_slot(base) {
            Some(j) => {
                self.touch_backup(j, use_count);
                let data = match &self.backup[j] {
                    Some(y) => y.data.clone(),
                    None => Vec::new(),
                };
                let dirty = match &self.backup[j] {
                    Some(y) => y.dirty,
                    None => false,
                };
                proof {
                    assert(present(self.backup@, j as int));
                    assert(holds(self.backup@, j as int, base as int));
                    assert(data@ =~= at(self.backup@, j as int).data@);
                    assert forall|j2: int| #[trigger] holds(self.backup@, j2, base as int) implies {
                        &&& at(self.backup@, j2).data@ == data@
                        &&& at(self.backup@, j2).dirty == dirty
                    } by {
                        assert(present(self.backup@, j2) && present(self.backup@, j as int));
                    }
                }
                CachedLine {
                    base_addr: base,
                    data,
                    dirty,
                    last_used: use_count,
                    used: false,
                    owner: SecurityClass::High,
                    owner_pid: 0,
                    owner_domain: 0,
                    rmt_id: 0,
                    logical_index: 0,
                    logical_tag: 0,
                }
            },
            None => {
                let data = read_line(&mut self.backing, &mut self.pending, base, self.line_size, clock);
                proof {
                    Self::lemma_lines_backing(s2, *self);
                    assert(!holds_base(self.backup@, base as int));
                    assert(s0.state_coherent() ==> forall|k: int| 0 <= k < ls ==> #[trigger] data@[k] == self.backing.view()[base + k]);
                }
                CachedLine {
                    base_addr: base,
                    data,
                    dirty: false,
                    last_used: use_count,
                    used: false,
                    owner: SecurityClass::High,
                    owner_pid: 0,
                    owner_domain: 0,
                    rmt_id: 0,
                    logical_index: 0,
                    logical_tag: 0,
                }
            },
        };
        let ghost s3 = *self;
        let ghost l = new_line;
        proof {
            assert(forall|j2: int| #[trigger] holds(s3.backup@, j2, base as int) ==> {
                &&& at(s3.backup@, j2).data@ == l.data@
                &&& at(s3.backup@, j2).dirty == l.dirty
            });
            assert(!holds_base(s3.backup@, base as int) ==> (s0.state_coherent() ==> forall|k: int| 0 <= k < ls ==> #[trigger] l.data@[k] == s3.backing.view()[base + k]));
            assert(!holds_base(s3.primary@, base as int));
            if s0.state_coherent() {
                assert(s3.full_view() == s0.full_view());
                assert forall|k: int| 0 <= k < ls implies #[trigger] l.data@[k] == s3.lower_view()[base + k] by {
                    if holds_base(s3.backup@, base as int) {
                        let j = choose|j: int| holds(s3.backup@, j, base as int);
                        assert(holds(s3.backup@, j, base as int));
                        assert(covers(s3.backup@, ls, j, base + k));
                        lemma_overlay_hit(s3.backup@, ls, n, s3.backing.view(), j, base + k);
                    } else {
                        s3.lemma_lower_uncovered(base as int, k);
                    }
                }
                assert forall|k: int| 0 <= k < ls implies #[trigger] s3.lower_view()[base + k] == s3.full_view()[base + k] by {
                    Self::lemma_holds_covers(s3.primary@, ls, n, base + k);
                    lemma_base_of(base + k, base as int, ls);
                }
            }
            assert(line_accessible(s3.backing, base as int, ls)) by {
                assert forall|k: int| 0 <= k < ls implies #[trigger] s3.backing.accessible(base + k) by {
                    assert(s0.backing.accessible(base + k));
                }
            }
            assert forall|j: int| #[trigger] holds(s3.backup@, j, base as int) implies {
                &&& at(s3.backup@, j).data@ == l.data@
                &&& at(s3.backup@, j).dirty == l.dirty
            } by {
                assert(present(s3.backup@, j));
            }
        }
        let byte = new_line.data[offset];
        let victim = self.primary_lru_victim(set_idx);
        proof {
            if old(self).set_has_room(addr as int) && old(self).pending@.len() == 0 {
                let lo2 = old(self).set_of(old(self).base_of(addr as int)) * (old(self).associativity as int);
                let i = choose|i: int| lo2 <= i < lo2 + old(self).associativity && !#[trigger] present(old(self).primary@, i);
                assert(self.primary@ == old(self).primary@);
                assert(!present(self.primary@, i));
                assert(!present(self.primary@, victim as int));
            }
        }
        let evicted = take_slot(&mut self.primary, victim);
        put_slot(&mut self.primary, victim, new_line);
        let ghost s4 = *self;
        proof {
            assert(self.primary@ =~= s3.primary@.update(victim as int, Some(l)));
            if s0.state_coherent() {
                if !l.dirty {
                    assert forall|k: int| 0 <= k < ls implies #[trigger] l.data@[k] == s3.backing.view()[base + k] by {
                        if holds_base(s3.backup@, base as int) {
                            let j = choose|j: int| holds(s3.backup@, j, base as int);
                            assert(holds(s3.backup@, j, base as int));
                            assert(present(s3.backup@, j));
                            assert(line_matches(s3.backup@, ls, s3.backing.view(), j));
                            assert(at(s3.backup@, j).data@[k] == s3.backing.view()[base + k]);
                        }
                    }
                }
            }
            Self::lemma_install(s3, s4, victim as int, l, s0.state_coherent());
        }
        match evicted {
            Some(e) => {
                self.insert_primary_eviction_into_backup(e, clock);
            },
            None => {},
        }
        proof {
            if s0.state_coherent() {
                assert(self.primary@ == s4.primary@);
                lemma_overwrite_same(s3.full_view(), base as int, l.data@);
                assert(byte == l.data@[a - base]);
            }
        }
        let ghost c1 = clock@;
        proof {
            if old(self).pending@.len() == 0 && holds_base(old(self).backup@, old(self).base_of(addr as int))
                && old(self).set_has_room(addr as int) {
                assert(evicted is None);
                assert(c1 == c0);
            }
            if old(self).pending@.len() == 0 && !holds_base(old(self).backup@, old(self).base_of(addr as int))
                && old(self).set_has_room(addr as int) {
                assert(evicted is None);
                if let Some(c) = old(self).backing.fixed_costs() {
                    assert(c1 == tick_by(c0, old(self).line_len() * c.0));
                    lemma_tick_by_twice(c0, old(self).line_len() * c.0, if charge_timing && old(self).timed {
                        old(self).timing.load_miss as int
                    } else {
                        0
                    });
                }
            }
        }
        if charge_timing {
            if from_backup {
                self.charge(self.timing.load_hit, clock);
            } else {
                self.charge(self.timing.load_miss, clock);
            }
        }
        let ghost s5 = *self;
        self.access_complete(clock);
        proof {
            assert(holds(self.primary@, victim as int, base as int));
        }
        proof {
            Self::lemma_frame_trans(*old(self), s0, s3);
            Self::lemma_frame_trans(*old(self), s3, s5);
            Self::lemma_frame_trans(*old(self), s5, *self);
        }
        byte
    }
}

impl<M: MemoryDevice> BackCacheMemory<M> {
    /// Writes `value` at offset `offset` of backup slot `j`, marking the line
    /// dirty and hit at use count `use_count`.
    fn write_backup(&mut self, j: usize, offset: usize, value: u8, use_count: usize)
        requires
            old(self).state_wf(),
            present(old(self).backup@, j as int),
            offset < old(self).line_len(),
            !holds_base(old(self).primary@, at(old(self).backup@, j as int).base_addr as int),
        ensures
            final(self).state_wf(),
            *final(self) == (Self { backup: final(self).backup, ..*old(self) }),
            present(final(self).backup@, j as int),
            at(final(self).backup@, j as int).base_addr == at(old(self).backup@, j as int).base_addr,
            at(final(self).backup@, j as int).data@ == at(old(self).backup@, j as int).data@.update(offset as int, value),
            at(final(self).backup@, j as int).dirty,
            old(self).state_coherent() ==> {
                let a = at(old(self).backup@, j as int).base_addr + offset;
                &&& final(self).state_coherent()
                &&& final(self).lower_view() == old(self).lower_view().update(a, value)
                &&& final(self).full_view() == old(self).full_view().update(a, value)
            },
    {
        let ghost s0 = *self;
        let ghost ls = self.line_len();
        let ghost n = self.mem_len();
        let slot = take_slot(&mut self.backup, j);
        match slot {
            Some(mut line) => {
                proof {
                    assert(present(s0.backup@, j as int));
                }
                line.data.set(offset, value);
                line.dirty = true;
                line.last_used = use_count;
                line.used = true;
                let ghost l = line;
                put_slot(&mut self.backup, j, line);
                proof {
                    assert(self.backup@ =~= s0.backup@.update(j as int, Some(l)));
                    let y = at(s0.backup@, j as int);
                    assert(holds(s0.backup@, j as int, y.base_addr as int));
                    let a = y.base_addr + offset;
                    assert(covers(s0.backup@, ls, j as int, a));
                    lemma_overlay_write(s0.backup@, ls, n, s0.backing.view(), j as int, a, value, l);
                    assert(line_accessible(s0.backing, y.base_addr as int, ls));
                    assert forall|i: int| #[trigger] present(self.backup@, i) implies {
                        &&& self.enabled@[i]
                        &&& line_accessible(self.backing, at(self.backup@, i).base_addr as int, self.line_len())
                    } by {
                        if i != j {
                            assert(present(s0.backup@, i));
                        }
                    }
                    assert forall|i: int, k: int|
                        #![trigger present(self.primary@, i), present(self.backup@, k)]
                        present(self.primary@, i) && present(self.backup@, k) && at(self.primary@, i).base_addr
                            == at(self.backup@, k).base_addr implies {
                            &&& at(self.primary@, i).data@ == at(self.backup@, k).data@
                            &&& at(self.primary@, i).dirty == at(self.backup@, k).dirty
                        } by {
                        if k == j {
                            assert(holds(s0.primary@, i, y.base_addr as int));
                        } else {
                            assert(present(s0.backup@, k));
                        }
                    }
                    if s0.state_coherent() {
                        lemma_clean_put(s0.backup@, ls, s0.backing.view(), j as int, l);
                        s0.lemma_can_access_line(y.base_addr as int);
                        assert forall|i: int| !#[trigger] covers(s0.primary@, ls, i, a) by {
                            if covers(s0.primary@, ls, i, a) {
                                Self::lemma_cover_base(s0.primary@, ls, n, i, a);
                                lemma_base_of(a, y.base_addr as int, ls);
                                assert(holds(s0.primary@, i, y.base_addr as int));
                            }
                        }
                        lemma_overlay_update_uncovered(s0.primary@, ls, n, s0.lower_view(), a, value);
                    }
                }
            },
            None => {
                proof {
                    assert(false);
                }
            },
        }
    }

    /// The line that backup slot `j` holds lies within memory.
    proof fn lemma_can_access_line(&self, b: int)
        requires
            self.core_wf(),
            holds_base(self.backup@, b),
        ensures
            b >= 0,
            b % self.line_len() == 0,
            b + self.line_len() <= self.mem_len(),
    {
        let j = choose|j: int| holds(self.backup@, j, b);
        assert(present(self.backup@, j));
    }

    /// Stores `value` at `addr`; `charge_timing` says whether the access is
    /// charged.
    #[verifier::rlimit(40)]
    fn store_u8_internal(&mut self, addr: usize, value: u8, charge_timing: bool, clock: &mut Clock)
        requires
            old(self).state_wf(),
            old(self).can_access(addr as int),
        ensures
            holds_base(final(self).primary@, old(self).base_of(addr as int)),
            final(self).state_wf(),
            final(self).same_frame(old(self)),
            old(self).pending@.len() == 0 && holds_base(old(self).primary@, old(self).base_of(addr as int))
                && old(self).resize_countdown > 1 ==> final(clock)@ == saturating_tick(
                old(clock)@,
                if charge_timing && old(self).timed { old(self).timing.store_hit } else { 0 },
            ),
            final(clock)@ >= old(clock)@,
            old(self).pending@.len() == 0 && !holds_base(old(self).primary@, old(self).base_of(addr as int))
                && !holds_base(old(self).backup@, old(self).base_of(addr as int)) ==> final(clock)@ >= saturating_tick(
                old(clock)@,
                if charge_timing && old(self).timed { old(self).timing.store_miss } else { 0 },
            ),
            old(self).state_coherent() ==> {
                &&& final(self).state_coherent()
                &&& final(self).full_view() == old(self).full_view().update(addr as int, value)
            },
    {
        self.apply_pending(clock);
        let ghost s0 = *self;
        proof {
            if old(self).pending@.len() == 0 {
                assert(addr_set(old(self).pending@) =~= Set::<int>::empty());
                lemma_without_nothing(old(self).backup@);
            }
        }
        proof {
            assert forall|k: int| 0 <= k < self.line_len() implies #[trigger] self.backing.accessible(self.base_of(addr as int) + k) by {
                assert(old(self).backing.accessible(old(self).base_of(addr as int) + k));
            }
            self.lemma_can_access(addr as int);
        }
        let ghost ls = self.line_len();
        let ghost n = self.mem_len();
        let ghost a = addr as int;
        let base = self.line_base(addr);
        let set_idx = self.set_index(addr);
        let offset = addr % self.line_size;
        let use_count = self.next_use_counter();
        proof {
            lemma_slot_index(set_idx as int, 0, self.associativity as int, self.num_sets as int);
            lemma_slot_index(set_idx as int, self.associativity - 1, self.associativity as int, self.num_sets as int);
            Self::lemma_holds_covers(s0.primary@, ls, n, a);
            Self::lemma_holds_covers(s0.backup@, ls, n, a);
            lemma_base_of_props(a, ls);
        }
        let lo = set_idx * self.associativity;
        let ghost s1 = *self;
        match find_in(&self.primary, lo, lo + self.associativity, base) {
            Some(way) => {
                let bj = self.find_backup_slot(base);
                let slot = take_slot(&mut self.primary, way);
                match slot {
                    Some(mut line) => {
                        proof {
                            assert(present(s1.primary@, way as int));
                        }
                        line.data.set(offset, value);
                        line.dirty = true;
                        line.last_used = use_count;
                        let ghost lp = line;
                        put_slot(&mut self.primary, way, line);
                        let ghost s2 = *self;
                        proof {
                            assert(self.primary@ =~= s1.primary@.update(way as int, Some(lp)));
                            assert(covers(s1.primary@, ls, way as int, a));
                            Self::lemma_cover_base(s1.primary@, ls, n, way as int, a);
                            lemma_overlay_write(s1.primary@, ls, n, s1.lower_view(), way as int, a, value, lp);
                        }
                        match bj {
                            Some(j) => {
                                let bslot = take_slot(&mut self.backup, j);
                                match bslot {
                                    Some(mut bline) => {
                                        bline.data.set(offset, value);
                                        bline.dirty = true;
                                        bline.last_used = use_count;
                                        bline.used = true;
                                        let ghost lb = bline;
                                        put_slot(&mut self.backup, j, bline);
                                        proof {
                                            assert(self.backup@ =~= s2.backup@.update(j as int, Some(lb)));
                                            assert(present(s2.backup@, j as int));
                                            assert(covers(s2.backup@, ls, j as int, a));
                                            lemma_overlay_write(s2.backup@, ls, n, s2.backing.view(), j as int, a, value, lb);
                                            assert(present(s1.primary@, way as int) && present(s1.backup@, j as int));
                                        }
                                    },
                                    None => {},
                                }
                            },
                            None => {},
                        }
                        let ghost s3 = *self;
                        proof {
                            assert forall|i: int| #[trigger] present(s3.primary@, i) implies {
                                &&& s3.set_of(at(s3.primary@, i).base_addr as int) == i / (s3.associativity as int)
                                &&& line_accessible(s3.backing, at(s3.primary@, i).base_addr as int, s3.line_len())
                            } by {
                                assert(present(s1.primary@, i));
                            }
                            assert forall|j: int| #[trigger] present(s3.backup@, j) implies {
                                &&& s3.enabled@[j]
                                &&& line_accessible(s3.backing, at(s3.backup@, j).base_addr as int, s3.line_len())
                            } by {
                                assert(present(s1.backup@, j));
                            }
                            assert forall|i: int, k: int|
                                #![trigger present(s3.primary@, i), present(s3.backup@, k)]
                                present(s3.primary@, i) && present(s3.backup@, k) && at(s3.primary@, i).base_addr
                                    == at(s3.backup@, k).base_addr implies {
                                    &&& at(s3.primary@, i).data@ == at(s3.backup@, k).data@
                                    &&& at(s3.primary@, i).dirty == at(s3.backup@, k).dirty
                                } by {
                                assert(present(s1.primary@, i) && present(s1.backup@, k));
                                if i == way {
                                    if at(s3.backup@, k).base_addr == base {
                                        assert(holds(s1.backup@, k, base as int));
                                    }
                                } else if at(s1.primary@, i).base_addr == base {
                                    assert(present(s1.primary@, way as int));
                                }
                            }
                            if s0.state_coherent() {
                                lemma_clean_put(s1.primary@, ls, s1.backing.view(), way as int, lp);
                                if s3.backup@ == s2.backup@ {
                                    assert(s3.full_view() == s1.full_view().update(a, value));
                                } else {
                                    let j = choose|j: int| holds(s1.backup@, j, base as int);
                                    assert(holds(s1.backup@, j, base as int));
                                    lemma_clean_put(s2.backup@, ls, s2.backing.view(), j, at(s3.backup@, j));
                                    lemma_overlay_update_covered(s3.primary@, ls, n, s2.lower_view(), way as int, a, value);
                                    assert(s3.full_view() == s2.full_view());
                                }
                            }
                        }
                        if charge_timing {
                            self.charge(self.timing.store_hit, clock);
                        }
                        self.access_complete(clock);
                        proof {
                            assert(holds(self.primary@, way as int, base as int));
                        }
                        return;
                    },
                    None => {
                        proof {
                            assert(false);
                        }
                    },
                }
            },
            None => {
                proof {
                    self.lemma_not_in_set(base as int, set_idx as int);
                }
            },
        }
        proof {
            assert(self.primary@ =~= s1.primary@);
        }
        let ghost s2 = *self;
        let ghost mut from_backup = false;
        let new_line = match self.find_backup_slot(base) {
            Some(j) => {
                proof {
                    assert(present(self.backup@, j as int));
                    assert(holds(self.backup@, j as int, base as int));
                    from_backup = true;
                }
                self.write_backup(j, offset, value, use_count);
                let data = match &self.backup[j] {
                    Some(y) => y.data.clone(),
                    None => Vec::new(),
                };
                proof {
                    assert(present(self.backup@, j as int));
                    assert(holds(self.backup@, j as int, base as int));
                    assert(data@ =~= at(self.backup@, j as int).data@);
                    assert forall|j2: int| #[trigger] holds(self.backup@, j2, base as int) implies {
                        &&& at(self.backup@, j2).data@ == data@
                        &&& at(self.backup@, j2).dirty
                    } by {
                        assert(present(self.backup@, j2) && present(self.backup@, j as int));
                    }
                    assert(s0.state_coherent() ==> self.full_view() == s1.full_view().update(a, value));
                    if s0.state_coherent() {
                        assert forall|k: int| 0 <= k < ls implies #[trigger] data@[k] == self.full_view()[base + k] by {
                            Self::lemma_holds_covers(self.primary@, ls, n, base + k);
                            lemma_base_of(base + k, base as int, ls);
                            assert(covers(self.backup@, ls, j as int, base + k));
                            lemma_overlay_hit(self.backup@, ls, n, self.backing.view(), j as int, base + k);
                        }
                    }
                }
                CachedLine {
                    base_addr: base,
                    data,
                    dirty: true,
                    last_used: use_count,
                    used: false,
                    owner: SecurityClass::High,
                    owner_pid: 0,
                    owner_domain: 0,
                    rmt_id: 0,
                    logical_index: 0,
                    logical_tag: 0,
                }
            },
            None => {
                let mut data = read_line(&mut self.backing, &mut self.pending, base, self.line_size, clock);
                proof {
                    Self::lemma_lines_backing(s2, *self);
                    assert(!holds_base(self.backup@, base as int));
                }
                let ghost fetched = data@;
                data.set(offset, value);
                proof {
                    assert(data@ == fetched.update(a - base, value));
                    if s0.state_coherent() {
                        assert(self.full_view() == s1.full_view());
                        assert forall|c: int| 0 <= c < n implies #[trigger] overwrite(s1.full_view(), base as int, data@)[c] == s1.full_view().update(a, value)[c] by {
                            if base <= c < base + ls {
                                let k = c - base;
                                Self::lemma_holds_covers(s1.primary@, ls, n, c);
                                lemma_base_of(c, base as int, ls);
                                s1.lemma_lower_uncovered(base as int, k);
                                assert(fetched[k] == self.backing.view()[base + k]);
                            }
                        }
                        assert(overwrite(s1.full_view(), base as int, data@) =~= s1.full_view().update(a, value));
                    }
                }
                CachedLine {
                    base_addr: base,
                    data,
                    dirty: true,
                    last_used: use_count,
                    used: false,
                    owner: SecurityClass::High,
                    owner_pid: 0,
                    owner_domain: 0,
                    rmt_id: 0,
                    logical_index: 0,
                    logical_tag: 0,
                }
            },
        };
        let ghost s3 = *self;
        let ghost l = new_line;
        proof {
            assert(!holds_base(s3.primary@, base as int));
            assert(forall|j2: int| #[trigger] holds(s3.backup@, j2, base as int) ==> {
                &&& at(s3.backup@, j2).data@ == l.data@
                &&& at(s3.backup@, j2).dirty == l.dirty
            });
            assert(line_accessible(s3.backing, base as int, ls)) by {
                assert forall|k: int| 0 <= k < ls implies #[trigger] s3.backing.accessible(base + k) by {
                    assert(s0.backing.accessible(base + k));
                }
            }
            if s0.state_coherent() {
                if from_backup {
                    lemma_overwrite_same(s3.full_view(), base as int, l.data@);
                }
                assert(overwrite(s3.full_view(), base as int, l.data@) == s1.full_view().update(a, value));
            }
        }
        let ghost miss = old(self).pending@.len() == 0 && !holds_base(old(self).primary@, base as int)
            && !holds_base(old(self).backup@, base as int);
        proof {
            if miss {
                assert(!holds_base(self.backup@, base as int));
                assert(!holds_base(self.primary@, base as int));
            }
        }
        let ghost pre = *self;
        let victim = self.primary_lru_victim(set_idx);
        let evicted = take_slot(&mut self.primary, victim);
        put_slot(&mut self.primary, victim, new_line);
        let ghost s4 = *self;
        proof {
            assert(self.primary@ =~= s3.primary@.update(victim as int, Some(l)));
            Self::lemma_install(s3, s4, victim as int, l, s0.state_coherent());
        }
        match evicted {
            Some(e) => {
                proof {
                    if miss {
                        assert(present(pre.primary@, victim as int));
                        assert(!holds(pre.primary@, victim as int, base as int));
                        assert(self.backup@ == pre.backup@);
                    }
                }
                self.insert_primary_eviction_into_backup(e, clock);
            },
            None => {},
        }
        proof {
            if s0.state_coherent() {
                assert(self.primary@ == s4.primary@);
            }
        }
        proof {
            if miss {
                assert(!holds_base(self.backup@, base as int));
            }
        }
        if charge_timing {
            let hit = match self.find_backup_slot(base) {
                Some(_) => true,
                None => false,
            };
            if hit {
                self.charge(self.timing.store_hit, clock);
            } else {
                self.charge(self.timing.store_miss, clock);
            }
        }
        let ghost s5 = *self;
        self.access_complete(clock);
        proof {
            assert(holds(self.primary@, victim as int, base as int));
        }
        proof {
            Self::lemma_frame_trans(*old(self), s0, s3);
            Self::lemma_frame_trans(*old(self), s3, s5);
            Self::lemma_frame_trans(*old(self), s5, *self);
        }
    }
}

impl<M: MemoryDevice> BackCacheMemory<M> {
    /// An empty cache of `num_sets` sets of `associativity` lines of
    /// `line_size` bytes, with a backup buffer of as many lines, in front of
    /// `backing`, under the default policy.
    pub fn new(line_size: usize, num_sets: usize, associativity: usize, backing: M) -> (c: Self)
        requires
            line_size > 0,
            num_sets > 0,
            associativity > 0,
            num_sets * associativity <= usize::MAX,
            backing.wf(),
        ensures
            c.wf(),
            c.view() == backing.view(),
            c.coherent() == backing_sound(backing),
            c.backing_spec() == backing,
            c.line_len() == line_size,
            c.capacity() == num_sets * associativity,
            !c.is_timed(),
            c.timing_spec() == CacheTiming::default_spec(),
            c.policy_spec() == (BackCachePolicy { min_enabled_lines: 128, max_enabled_lines: 512 }),
            c.enabled_count() == c.max_enabled(),
            forall|b: int| #[trigger] c.holds_line(b) == backing.holds_line(b),
    {
        let total = num_sets * associativity;
        let mut primary: Vec<Option<CachedLine>> = Vec::new();
        let mut backup: Vec<Option<CachedLine>> = Vec::new();
        let mut enabled: Vec<bool> = Vec::new();
        let mut i: usize = 0;
        while i < total
            invariant
                i <= total,
                primary@.len() == i,
                backup@.len() == i,
                enabled@.len() == i,
                forall|j: int| 0 <= j < i ==> !#[trigger] enabled@[j],
                forall|j: int| 0 <= j < i ==> #[trigger] primary@[j] is None,
                forall|j: int| 0 <= j < i ==> #[trigger] backup@[j] is None,
            decreases total - i,
        {
            primary.push(None);
            backup.push(None);
            enabled.push(false);
            i = i + 1;
        }
        let policy = BackCachePolicy::default();
        let initial_enabled = if policy.max_enabled_lines < total {
            policy.max_enabled_lines
        } else {
            total
        };
        let initial_enabled = if initial_enabled < 1 {
            1
        } else {
            initial_enabled
        };
        let mut cache = BackCacheMemory {
            line_size,
            num_sets,
            associativity,
            primary,
            backup,
            enabled,
            use_counter: 0,
            rng_state: 0x4f1b_bc53_9e37_79b9,
            resize_countdown: initial_enabled,
            backing,
            timed: false,
            timing: CacheTiming::default(),
            policy,
            pending: Vec::new(),
        };
        proof {
            assert forall|j: int| !#[trigger] present(cache.primary@, j) by {
                if 0 <= j < cache.primary@.len() {
                    assert(cache.primary@[j] is None);
                }
            }
            assert forall|j: int| !#[trigger] present(cache.backup@, j) by {
                if 0 <= j < cache.backup@.len() {
                    assert(cache.backup@[j] is None);
                }
            }
            assert forall|b: int| !#[trigger] holds_base(cache.primary@, b) by {
                if holds_base(cache.primary@, b) {
                    let j = choose|j: int| holds(cache.primary@, j, b);
                    assert(present(cache.primary@, j));
                }
            }
            assert forall|b: int| !#[trigger] holds_base(cache.backup@, b) by {
                if holds_base(cache.backup@, b) {
                    let j = choose|j: int| holds(cache.backup@, j, b);
                    assert(present(cache.backup@, j));
                }
            }
            assert(cache.lower_view() =~= backing.view());
            assert(cache.full_view() =~= backing.view());
            cache.lemma_capacity_pos();
        }
        proof {
            lemma_count_zero(cache.enabled@, cache.enabled@.len() as int);
        }
        cache.enable_initial_lines(initial_enabled);
        proof {
            assert(cache.lower_view() =~= backing.view());
            assert(cache.full_view() =~= backing.view());
        }
        cache
    }

    /// Makes every later access charge the clock it is given.
    pub fn with_clock(self) -> (c: Self)
        ensures
            c.wf() == self.wf(),
            c.view() == self.view(),
            c.coherent() == self.coherent(),
            c.backing_spec() == self.backing_spec(),
            c.timing_spec() == self.timing_spec(),
            c.policy_spec() == self.policy_spec(),
            c.line_len() == self.line_len(),
            c.capacity() == self.capacity(),
            c.enabled_count() == self.enabled_count(),
            forall|b: int| #[trigger] c.holds_line(b) == self.holds_line(b),
            forall|b: int| #[trigger] c.accessible(b) == self.accessible(b),
            c.is_timed(),
    {
        BackCacheMemory { timed: true, ..self }
    }

    pub fn with_timing(self, timing: CacheTiming) -> (c: Self)
        ensures
            c.wf() == self.wf(),
            c.view() == self.view(),
            c.coherent() == self.coherent(),
            c.backing_spec() == self.backing_spec(),
            c.is_timed() == self.is_timed(),
            c.policy_spec() == self.policy_spec(),
            c.line_len() == self.line_len(),
            c.capacity() == self.capacity(),
            c.enabled_count() == self.enabled_count(),
            forall|b: int| #[trigger] c.holds_line(b) == self.holds_line(b),
            forall|b: int| #[trigger] c.accessible(b) == self.accessible(b),
            c.timing_spec() == timing,
    {
        BackCacheMemory { timing, ..self }
    }

    /// Adopts `policy` and gives the backup buffer a random size within its
    /// bounds. Lines that this evicts are written back without charging any
    /// clock.
    pub fn with_policy(self, policy: BackCachePolicy) -> (c: Self)
        requires
            self.wf(),
        ensures
            c.wf(),
            self.coherent() ==> c.coherent() && c.view() == self.view(),
            c.backing_spec().view().len() == self.backing_spec().view().len(),
            c.is_timed() == self.is_timed(),
            c.timing_spec() == self.timing_spec(),
            c.policy_spec() == policy,
            c.line_len() == self.line_len(),
            c.capacity() == self.capacity(),
            c.min_enabled() <= c.enabled_count() <= c.max_enabled(),
            c.countdown() == c.enabled_count(),
            forall|b: int| #[trigger] c.accessible(b) == self.accessible(b),
    {
        let mut c = BackCacheMemory { policy, ..self };
        proof {
            Self::lemma_lines_backing(self, c);
        }
        let enabled = c.random_enabled_count();
        let mut scratch = Clock::new();
        c.set_enabled_lines(enabled, &mut scratch);
        c.resize_countdown = enabled;
        proof {
            Self::lemma_accessible_frame(self, c);
        }
        c
    }

    /// The level below this cache.
    pub fn backing_memory(&self) -> (m: &M)
        ensures
            *m == self.backing_spec(),
    {
        &self.backing
    }

    /// The level below this cache, for direct access that bypasses it.
    pub fn backing_memory_mut(&mut self) -> (m: &mut M)
        ensures
            *m == old(self).backing_spec(),
            final(self).backing_spec() == *final(m),
            final(self).is_timed() == old(self).is_timed(),
            final(self).timing_spec() == old(self).timing_spec(),
            final(self).policy_spec() == old(self).policy_spec(),
    {
        &mut self.backing
    }

    /// Number of backup lines enabled now.
    pub fn enabled_lines(&self) -> (c: usize)
        requires
            self.wf(),
        ensures
            c == self.enabled_count(),
    {
        self.current_enabled_lines()
    }

    /// Accesses left before the backup buffer is resized.
    pub fn resize_countdown(&self) -> (c: usize)
        ensures
            c == self.countdown(),
    {
        self.resize_countdown
    }

    /// Whether the backup buffer holds the line starting at `base_addr`: if
    /// so, whether its slot is enabled and whether the line was hit since it
    /// entered the buffer.
    pub fn backup_line_state(&self, base_addr: usize) -> (r: Option<(bool, bool)>)
        requires
            self.wf(),
        ensures
            r == self.backup_line(base_addr as int),
    {
        match self.find_backup_slot(base_addr) {
            Some(j) => {
                proof {
                    assert(holds(self.backup@, j as int, base_addr as int));
                    let k = choose|k: int| holds(self.backup@, k, base_addr as int);
                    assert(present(self.backup@, k) && present(self.backup@, j as int));
                }
                match &self.backup[j] {
                    Some(line) => Some((self.enabled[j], line.used)),
                    None => None,
                }
            },
            None => None,
        }
    }

    /// Enables `target` disabled backup slots, chosen at random.
    fn enable_initial_lines(&mut self, target: usize)
        requires
            old(self).shape_wf(),
            old(self).enabled_count() <= target <= old(self).capacity(),
        ensures
            *final(self) == (Self {
                enabled: final(self).enabled,
                rng_state: final(self).rng_state,
                ..*old(self)
            }),
            final(self).enabled_count() == target,
            final(self).enabled@.len() == old(self).enabled@.len(),
    {
        while self.current_enabled_lines() < target
            invariant
                self.shape_wf(),
                *self == (Self { enabled: self.enabled, rng_state: self.rng_state, ..*old(self) }),
                self.enabled_count() <= target <= self.capacity(),
                self.enabled@.len() == old(self).enabled@.len(),
            decreases target - self.enabled_count(),
        {
            let idx = self.choose_disabled_slot_to_enable();
            let ghost s2 = *self;
            self.enabled.set(idx, true);
            proof {
                lemma_count_update(s2.enabled@, idx as int, true, s2.enabled@.len() as int);
            }
        }
    }
}

impl<M: MemoryDevice> BackCacheMemory<M> {
    /// A cache's accessible addresses depend only on its line size and on
    /// the level below.
    proof fn lemma_accessible_frame(s1: Self, s2: Self)
        requires
            s2.line_size == s1.line_size,
            forall|b: int| #[trigger] s2.backing.accessible(b) == s1.backing.accessible(b),
        ensures
            forall|b: int| #[trigger] s2.can_access(b) == s1.can_access(b),
    {
        assert forall|b: int| #[trigger] s2.can_access(b) == s1.can_access(b) by {
            if s1.can_access(b) {
                assert forall|k: int| 0 <= k < s2.line_len() implies #[trigger] s2.backing.accessible(s2.base_of(b) + k) by {
                    assert(s1.backing.accessible(s1.base_of(b) + k));
                }
            }
            if s2.can_access(b) {
                assert forall|k: int| 0 <= k < s1.line_len() implies #[trigger] s1.backing.accessible(s1.base_of(b) + k) by {
                    assert(s2.backing.accessible(s2.base_of(b) + k));
                }
            }
        }
    }
}

impl<M: MemoryDevice> BackCacheMemory<M> {
    /// However the backup buffer is resized, the number of enabled backup
    /// lines stays within the bounds of the policy.
    pub proof fn lemma_enabled_within_policy(&self)
        requires
            self.wf(),
        ensures
            self.min_enabled() <= self.enabled_count() <= self.max_enabled(),
    {
    }
}

impl<M: MemoryDevice> BackCacheMemory<M> {
    /// When the level below can reach every address below `n`, and `n` is a
    /// whole number of lines, so can this cache.
    pub proof fn lemma_accessible_below(&self, n: int)
        requires
            self.line_len() > 0,
            n >= 0,
            n % self.line_len() == 0,
            forall|b: int| 0 <= b < n ==> #[trigger] self.backing_spec().accessible(b),
        ensures
            forall|a: int| 0 <= a < n ==> #[trigger] self.accessible(a),
    {
        assert forall|a: int| 0 <= a < n implies #[trigger] self.accessible(a) by {
            let ls = self.line_len();
            lemma_base_of_props(a, ls);
            lemma_line_fits(a, ls, n);
            assert forall|k: int| 0 <= k < ls implies #[trigger] self.backing.accessible(self.base_of(a) + k) by {
                assert(0 <= self.base_of(a) + k < n);
                assert(self.backing_spec().accessible(self.base_of(a) + k));
            }
        }
    }
}

impl<M: MemoryDevice> MemoryDevice for BackCacheMemory<M> {
    closed spec fn view(&self) -> Seq<u8> {
        self.full_view()
    }

    closed spec fn wf(&self) -> bool {
        self.state_wf()
    }

    closed spec fn accessible(&self, addr: int) -> bool {
        self.can_access(addr)
    }

    closed spec fn coherent(&self) -> bool {
        self.state_coherent()
    }

    open spec fn exclusive(&self, addr: int) -> bool {
        true
    }

    closed spec fn outgoing(&self) -> Seq<usize> {
        Seq::empty()
    }

    open spec fn fixed_costs(&self) -> Option<(u64, u64)> {
        None
    }

    closed spec fn holds_line(&self, addr: int) -> bool {
        ||| holds_base(self.primary@, self.base_of(addr))
        ||| holds_base(self.backup@, self.base_of(addr))
        ||| self.backing.holds_line(addr)
    }

    proof fn lemma_accessible_in_range(&self, addr: int) {
        self.lemma_can_access(addr);
    }

    fn load_u8(&mut self, addr: usize, clock: &mut Clock) -> (r: u8)
        ensures
            old(self).pending_invalidations().len() == 0 && !old(self).in_primary(old(self).base_of(addr as int))
                && old(self).backup_line(old(self).base_of(addr as int)) is None && old(self).set_has_room(addr as int)
                && old(self).countdown() > 1 ==> (old(self).backing_spec().fixed_costs() matches Some(c) ==> final(clock)@
                == tick_by(
                old(clock)@,
                old(self).line_len() * c.0 + (if old(self).is_timed() { old(self).timing_spec().load_miss as int } else { 0 }),
            )),
            final(self).in_primary(old(self).base_of(addr as int)),
            old(self).pending_invalidations().len() == 0 && old(self).in_primary(old(self).base_of(addr as int))
                && old(self).countdown() > 1 ==> final(clock)@ == saturating_tick(
                old(clock)@,
                if old(self).is_timed() { old(self).timing_spec().load_hit } else { 0 },
            ),
            final(self).policy_spec() == old(self).policy_spec(),
            final(self).capacity() == old(self).capacity(),
            old(self).pending_invalidations().len() == 0 && !old(self).in_primary(old(self).base_of(addr as int))
                && old(self).backup_line(old(self).base_of(addr as int)) is Some && old(self).set_has_room(addr as int)
                && old(self).countdown() > 1 ==> final(clock)@ == saturating_tick(
                old(clock)@,
                if old(self).is_timed() { old(self).timing_spec().load_hit } else { 0 },
            ),
            old(self).pending_invalidations().len() == 0 && !old(self).in_primary(old(self).base_of(addr as int))
                && old(self).backup_line(old(self).base_of(addr as int)) is None ==> final(clock)@ >= saturating_tick(
                old(clock)@,
                if old(self).is_timed() { old(self).timing_spec().load_miss } else { 0 },
            ),
    {
        let r = self.load_u8_internal(addr, true, clock);
        proof {
            assert(self.fixed_costs() == old(self).fixed_costs());
            Self::lemma_accessible_frame(*old(self), *self);
        }
        r
    }

    fn store_u8(&mut self, addr: usize, n: u8, clock: &mut Clock)
        ensures
            final(self).in_primary(old(self).base_of(addr as int)),
            old(self).pending_invalidations().len() == 0 && old(self).in_primary(old(self).base_of(addr as int))
                && old(self).countdown() > 1 ==> final(clock)@ == saturating_tick(
                old(clock)@,
                if old(self).is_timed() { old(self).timing_spec().store_hit } else { 0 },
            ),
            old(self).pending_invalidations().len() == 0 && !old(self).in_primary(old(self).base_of(addr as int))
                && old(self).backup_line(old(self).base_of(addr as int)) is None ==> final(clock)@ >= saturating_tick(
                old(clock)@,
                if old(self).is_timed() { old(self).timing_spec().store_miss } else { 0 },
            ),
            final(self).policy_spec() == old(self).policy_spec(),
            final(self).capacity() == old(self).capacity(),
    {
        self.store_u8_internal(addr, n, true, clock);
        proof {
            assert(self.fixed_costs() == old(self).fixed_costs());
            Self::lemma_accessible_frame(*old(self), *self);
        }
    }

    fn load_u16(&mut self, addr: usize, clock: &mut Clock) -> (r: u16) {
        proof {
            self.lemma_can_access(addr + 1);
        }
        let second = self.line_base(addr + 1) != self.line_base(addr);
        let ghost s0 = *self;
        let lo = self.load_u8_internal(addr, true, clock);
        proof {
            Self::lemma_accessible_frame(s0, *self);
        }
        let ghost s1 = *self;
        let hi = self.load_u8_internal(addr + 1, second, clock);
        proof {
            Self::lemma_accessible_frame(s1, *self);
            Self::lemma_frame_trans(s0, s1, *self);
            Self::lemma_accessible_frame(s0, *self);
        }
        lo as u16 + hi as u16 * 256
    }

    fn store_u16(&mut self, addr: usize, n: u16, clock: &mut Clock) {
        proof {
            self.lemma_can_access(addr + 1);
        }
        let second = self.line_base(addr + 1) != self.line_base(addr);
        let ghost s0 = *self;
        self.store_u8_internal(addr, (n % 256) as u8, true, clock);
        proof {
            Self::lemma_accessible_frame(s0, *self);
        }
        let ghost s1 = *self;
        self.store_u8_internal(addr + 1, (n / 256) as u8, second, clock);
        proof {
            Self::lemma_frame_trans(s0, s1, *self);
            Self::lemma_accessible_frame(s0, *self);
        }
    }

    fn load_u32(&mut self, addr: usize, clock: &mut Clock) -> (r: u32) {
        proof {
            self.lemma_can_access(addr + 3);
        }
        let c1 = self.line_base(addr + 1) != self.line_base(addr);
        let c2 = self.line_base(addr + 2) != self.line_base(addr + 1);
        let c3 = self.line_base(addr + 3) != self.line_base(addr + 2);
        let ghost s0 = *self;
        let b0 = self.load_u8_internal(addr, true, clock);
        proof {
            Self::lemma_accessible_frame(s0, *self);
        }
        let ghost s1 = *self;
        let b1 = self.load_u8_internal(addr + 1, c1, clock);
        proof {
            Self::lemma_frame_trans(s0, s1, *self);
            Self::lemma_accessible_frame(s0, *self);
        }
        let ghost s2 = *self;
        let b2 = self.load_u8_internal(addr + 2, c2, clock);
        proof {
            Self::lemma_frame_trans(s0, s2, *self);
            Self::lemma_accessible_frame(s0, *self);
        }
        let ghost s3 = *self;
        let b3 = self.load_u8_internal(addr + 3, c3, clock);
        proof {
            Self::lemma_frame_trans(s0, s3, *self);
            Self::lemma_accessible_frame(s0, *self);
        }
        b0 as u32 + b1 as u32 * 256 + b2 as u32 * 65536 + b3 as u32 * 16777216
    }

    fn store_u32(&mut self, addr: usize, n: u32, clock: &mut Clock) {
        proof {
            self.lemma_can_access(addr + 3);
        }
        let c1 = self.line_base(addr + 1) != self.line_base(addr);
        let c2 = self.line_base(addr + 2) != self.line_base(addr + 1);
        let c3 = self.line_base(addr + 3) != self.line_base(addr + 2);
        let ghost s0 = *self;
        self.store_u8_internal(addr, (n % 256) as u8, true, clock);
        proof {
            Self::lemma_accessible_frame(s0, *self);
        }
        let ghost s1 = *self;
        self.store_u8_internal(addr + 1, ((n / 256) % 256) as u8, c1, clock);
        proof {
            Self::lemma_frame_trans(s0, s1, *self);
            Self::lemma_accessible_frame(s0, *self);
        }
        let ghost s2 = *self;
        self.store_u8_internal(addr + 2, ((n / 65536) % 256) as u8, c2, clock);
        proof {
            Self::lemma_frame_trans(s0, s2, *self);
            Self::lemma_accessible_frame(s0, *self);
        }
        let ghost s3 = *self;
        self.store_u8_internal(addr + 3, (n / 16777216) as u8, c3, clock);
        proof {
            Self::lemma_frame_trans(s0, s3, *self);
            Self::lemma_accessible_frame(s0, *self);
        }
    }

    fn peek_u8(&self, addr: usize) -> (r: u8) {
        proof {
            self.lemma_can_access(addr as int);
        }
        let ghost ls = self.line_len();
        let ghost n = self.mem_len();
        let base = self.line_base(addr);
        let set_idx = self.set_index(addr);
        let offset = addr % self.line_size;
        proof {
            lemma_slot_index(set_idx as int, 0, self.associativity as int, self.num_sets as int);
            lemma_slot_index(set_idx as int, self.associativity - 1, self.associativity as int, self.num_sets as int);
            Self::lemma_holds_covers(self.primary@, ls, n, addr as int);
            Self::lemma_holds_covers(self.backup@, ls, n, addr as int);
            lemma_base_of_props(addr as int, ls);
        }
        let lo = set_idx * self.associativity;
        match find_in(&self.primary, lo, lo + self.associativity, base) {
            Some(i) => {
                match &self.primary[i] {
                    Some(line) => {
                        proof {
                            assert(covers(self.primary@, ls, i as int, addr as int));
                            lemma_overlay_hit(self.primary@, ls, n, self.lower_view(), i as int, addr as int);
                        }
                        return line.data[offset];
                    },
                    None => {},
                }
            },
            None => {
                proof {
                    self.lemma_not_in_set(base as int, set_idx as int);
                }
            },
        }
        match self.find_backup_slot(base) {
            Some(j) => {
                match &self.backup[j] {
                    Some(line) => {
                        proof {
                            assert(covers(self.backup@, ls, j as int, addr as int));
                            lemma_overlay_hit(self.backup@, ls, n, self.backing.view(), j as int, addr as int);
                        }
                        return line.data[offset];
                    },
                    None => {},
                }
            },
            None => {},
        }
        proof {
            assert(self.backing.accessible(base + (addr - base)));
        }
        self.backing.peek_u8(addr)
    }

    fn store_backmost_u8(&mut self, addr: usize, n: u8, clock: &mut Clock) {
        proof {
            self.lemma_can_access(addr as int);
            lemma_base_of_props(addr as int, self.line_len());
            assert(self.backing.accessible(self.base_of(addr as int) + (addr - self.base_of(addr as int))));
        }
        let ghost s0 = *self;
        self.backing.store_backmost_u8(addr, n, clock);
        proof {
            Self::lemma_lines_backing(s0, *self);
            Self::lemma_accessible_frame(s0, *self);
            let ls = s0.line_len();
            let m = s0.mem_len();
            if s0.coherent() && !s0.holds_line(addr as int) {
                Self::lemma_holds_covers(s0.primary@, ls, m, addr as int);
                Self::lemma_holds_covers(s0.backup@, ls, m, addr as int);
                assert(s0.backing.exclusive(addr as int));
                lemma_clean_update_uncovered(s0.primary@, ls, m, s0.backing.view(), addr as int, n);
                lemma_clean_update_uncovered(s0.backup@, ls, m, s0.backing.view(), addr as int, n);
                lemma_overlay_update_uncovered(s0.backup@, ls, m, s0.backing.view(), addr as int, n);
                lemma_overlay_update_uncovered(s0.primary@, ls, m, s0.lower_view(), addr as int, n);
            }
            if s0.coherent() {
                assert forall|a: int| self.backing.accessible(a) implies #[trigger] self.backing.exclusive(a) by {
                    assert(s0.backing.accessible(a));
                }
            }
        }
    }

    fn take_invalidations(&mut self) -> (v: Vec<usize>) {
        Vec::new()
    }
}

impl<M: MemoryDevice> InvalidationListener for BackCacheMemory<M> {
    /// Drops the primary and the backup copy of the line, writing dirty
    /// ones back.
    fn invalidate_line(&mut self, base_addr: usize, clock: &mut Clock)
        ensures
            final(self).primary_slots() == without_lines(old(self).primary_slots(), set![base_addr as int]),
            final(self).backup_slots() == without_lines(old(self).backup_slots(), set![base_addr as int]),
            forall|i: int| #[trigger] final(self).slot_enabled(i) == old(self).slot_enabled(i),
            !final(self).in_primary(base_addr as int),
            final(self).backup_line(base_addr as int) is None,
            (old(self).in_primary(base_addr as int) || old(self).backup_line(base_addr as int) is Some)
                && old(self).is_timed() ==> final(clock)@ >= saturating_tick(
                old(clock)@,
                old(self).timing_spec().invalidation_apply,
            ),
            old(self).backing_spec().fixed_costs() matches Some(c) ==> final(clock)@ == tick_by(
                old(clock)@,
                drop_cost(
                    old(self).primary_slots(),
                    base_addr as int,
                    old(self).line_len(),
                    c.1,
                    if old(self).is_timed() { old(self).timing_spec().write_back as int } else { 0 },
                    if old(self).is_timed() { old(self).timing_spec().invalidation_apply as int } else { 0 },
                ) + drop_cost(
                    old(self).backup_slots(),
                    base_addr as int,
                    old(self).line_len(),
                    c.1,
                    if old(self).is_timed() { old(self).timing_spec().write_back as int } else { 0 },
                    if old(self).is_timed() { old(self).timing_spec().invalidation_apply as int } else { 0 },
                ),
            ),
    {
        self.invalidate_both(base_addr, clock);
        proof {
            assert forall|j: int| !#[trigger] holds(self.primary@, j, base_addr as int) by {}
            assert forall|j: int| !#[trigger] holds(self.backup@, j, base_addr as int) by {}
            Self::lemma_accessible_frame(*old(self), *self);
        }
    }
}

impl<M: MemoryDevice> ContextSwitchListener for BackCacheMemory<M> {
    open spec fn listener_wf(&self) -> bool {
        self.wf()
    }

    /// Clears the hit bits of the backup lines, so that the next program
    /// does not profit from the previous one's hits.
    fn on_context_switch(&mut self)
        ensures
            final(self).view() == old(self).view(),
            old(self).coherent() ==> final(self).coherent(),
            forall|b: int| #[trigger] final(self).accessible(b) == old(self).accessible(b),
            forall|b: int| #[trigger] final(self).holds_line(b) == old(self).holds_line(b),
            forall|b: int| #[trigger] final(self).backup_line(b) == match old(self).backup_line(b) {
                Some(e) => Some((e.0, false)),
                None => None,
            },
    {
        self.clear_backup_used_bits();
        proof {
            Self::lemma_accessible_frame(*old(self), *self);
            let o = old(self).backup@;
            let now = self.backup@;
            lemma_same_content(o, now, old(self).line_len(), old(self).mem_len(), old(self).backing.view());
            assert forall|b: int| #[trigger] self.backup_line(b) == match old(self).backup_line(b) {
                Some(e) => Some((e.0, false)),
                None => None,
            } by {
                if holds_base(o, b) {
                    let j1 = choose|j: int| holds(o, j, b);
                    let j2 = choose|j: int| holds(now, j, b);
                    assert(holds(o, j1, b));
                    assert(holds(now, j2, b));
                    assert(present(o, j2) == present(now, j2));
                    assert(present(o, j1) && present(o, j2));
                }
            }
        }
    }
}

} // verus!
