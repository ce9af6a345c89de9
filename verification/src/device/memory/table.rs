use vstd::prelude::*;

use crate::device::Clock;
use crate::device::clock::{lemma_tick_by_twice, tick_by};
use crate::device::secdcp_memory::SecurityClass;

use super::MemoryDevice;
use super::lines::{lemma_aligned_disjoint, lemma_base_of, lemma_base_of_props, overwrite};

verus! {

/// A cached copy of one line of memory, with the bookkeeping that the
/// various cache designs keep beside it.
pub struct CachedLine {
    pub base_addr: usize,
    pub data: Vec<u8>,
    pub dirty: bool,
    pub last_used: usize,
    /// Whether the line was hit since it entered a victim buffer.
    pub used: bool,
    pub owner: SecurityClass,
    pub owner_pid: u32,
    pub owner_domain: u32,
    /// Remapping-table domain that placed the line.
    pub rmt_id: u32,
    pub logical_index: usize,
    pub logical_tag: usize,
}

/// Whether slot `i` of `t` holds a line.
pub open spec fn present(t: Seq<Option<CachedLine>>, i: int) -> bool {
    0 <= i < t.len() && t[i] is Some
}

/// `w` is the way of `lo..hi` that a fill takes: the first empty one; with
/// none empty, the first of those used least recently.
pub open spec fn is_victim(t: Seq<Option<CachedLine>>, lo: int, hi: int, w: int) -> bool {
    &&& lo <= w < hi
    &&& forall|j: int| lo <= j < w ==> #[trigger] present(t, j)
    &&& if present(t, w) {
        &&& forall|j: int| lo <= j < hi ==> #[trigger] present(t, j)
        &&& forall|j: int| lo <= j < hi ==> at(t, w).last_used <= #[trigger] at(t, j).last_used
        &&& forall|j: int| lo <= j < w ==> at(t, w).last_used < #[trigger] at(t, j).last_used
    } else {
        true
    }
}

/// `t` with every line whose base is in `gone` dropped.
pub open spec fn without_lines(t: Seq<Option<CachedLine>>, gone: Set<int>) -> Seq<Option<CachedLine>> {
    Seq::new(
        t.len(),
        |i: int|
            if present(t, i) && gone.contains(at(t, i).base_addr as int) {
                None
            } else {
                t[i]
            },
    )
}

/// The addresses listed in `p`.
pub open spec fn addr_set(p: Seq<usize>) -> Set<int> {
    Set::new(|b: int| exists|k: int| 0 <= k < p.len() && p[k] as int == b)
}

/// The line in slot `i` of `t`.
pub open spec fn at(t: Seq<Option<CachedLine>>, i: int) -> CachedLine {
    t[i]->0
}

/// Whether slot `i` of `t` holds the line starting at `b`.
pub open spec fn holds(t: Seq<Option<CachedLine>>, i: int, b: int) -> bool {
    present(t, i) && at(t, i).base_addr == b
}

/// Whether some slot of `t` holds the line starting at `b`.
pub open spec fn holds_base(t: Seq<Option<CachedLine>>, b: int) -> bool {
    exists|i: int| holds(t, i, b)
}

/// Whether the line in slot `i` of `t` covers address `a`.
pub open spec fn covers(t: Seq<Option<CachedLine>>, ls: int, i: int, a: int) -> bool {
    present(t, i) && at(t, i).base_addr <= a < at(t, i).base_addr + ls
}

/// Every line is a whole aligned line of `ls` bytes below `n`.
pub open spec fn shaped(t: Seq<Option<CachedLine>>, ls: int, n: int) -> bool {
    forall|i: int|
        #[trigger] present(t, i) ==> {
            &&& at(t, i).data@.len() == ls
            &&& (at(t, i).base_addr as int) % ls == 0
            &&& at(t, i).base_addr + ls <= n
        }
}

/// No two slots hold the same line.
pub open spec fn unique(t: Seq<Option<CachedLine>>) -> bool {
    forall|i: int, j: int|
        #![trigger present(t, i), present(t, j)]
        present(t, i) && present(t, j) && at(t, i).base_addr == at(t, j).base_addr ==> i == j
}

/// Whether the line in slot `i` agrees with `v` over its addresses.
pub open spec fn line_matches(t: Seq<Option<CachedLine>>, ls: int, v: Seq<u8>, i: int) -> bool {
    forall|k: int| 0 <= k < ls ==> #[trigger] at(t, i).data@[k] == v[at(t, i).base_addr + k]
}

/// Every line not written since it was filled agrees with `v`.
pub open spec fn clean_match(t: Seq<Option<CachedLine>>, ls: int, v: Seq<u8>) -> bool {
    forall|i: int| #[trigger] present(t, i) && !at(t, i).dirty ==> line_matches(t, ls, v, i)
}

/// `v` as seen through the lines of `t`.
pub open spec fn overlay(t: Seq<Option<CachedLine>>, ls: int, v: Seq<u8>) -> Seq<u8> {
    Seq::new(
        v.len(),
        |a: int|
            if exists|i: int| covers(t, ls, i, a) {
                let i = choose|i: int| covers(t, ls, i, a);
                at(t, i).data@[a - at(t, i).base_addr]
            } else {
                v[a]
            },
    )
}

/// A well formed table over `n` bytes of memory.
pub open spec fn table_wf(t: Seq<Option<CachedLine>>, ls: int, n: int) -> bool {
    &&& ls > 0
    &&& shaped(t, ls, n)
    &&& unique(t)
}

/// At most one line covers an address.
pub proof fn lemma_cover_unique(t: Seq<Option<CachedLine>>, ls: int, n: int, i: int, j: int, a: int)
    requires
        table_wf(t, ls, n),
        covers(t, ls, i, a),
        covers(t, ls, j, a),
    ensures
        i == j,
{
    assert(present(t, i) && present(t, j));
    if at(t, i).base_addr != at(t, j).base_addr {
        lemma_aligned_disjoint(at(t, i).base_addr as int, at(t, j).base_addr as int, ls);
    }
}

/// The byte of the overlay at an address that a line covers.
pub proof fn lemma_overlay_hit(t: Seq<Option<CachedLine>>, ls: int, n: int, v: Seq<u8>, i: int, a: int)
    requires
        table_wf(t, ls, n),
        covers(t, ls, i, a),
        0 <= a < v.len(),
    ensures
        overlay(t, ls, v)[a] == at(t, i).data@[a - at(t, i).base_addr],
{
    let j = choose|j: int| covers(t, ls, j, a);
    lemma_cover_unique(t, ls, n, i, j, a);
}

/// Removing the line of slot `i`, written back into `v` when dirty,
/// leaves the overlay as it was.
pub proof fn lemma_overlay_remove(t: Seq<Option<CachedLine>>, ls: int, n: int, v: Seq<u8>, i: int)
    requires
        table_wf(t, ls, n),
        clean_match(t, ls, v),
        present(t, i),
        v.len() == n,
    ensures
        ({
            let t2 = t.update(i, None);
            let v2 = if at(t, i).dirty {
                overwrite(v, at(t, i).base_addr as int, at(t, i).data@)
            } else {
                v
            };
            &&& table_wf(t2, ls, n)
            &&& clean_match(t2, ls, v2)
            &&& overlay(t2, ls, v2) == overlay(t, ls, v)
            &&& v2.len() == n
        }),
{
    let t2 = t.update(i, None);
    let l = at(t, i);
    let v2 = if l.dirty {
        overwrite(v, l.base_addr as int, l.data@)
    } else {
        v
    };
    assert forall|j: int| #[trigger] present(t2, j) implies present(t, j) && at(t2, j) == at(t, j) && j != i by {}
    assert forall|j: int, k: int|
        #![trigger present(t2, j), present(t2, k)]
        present(t2, j) && present(t2, k) && at(t2, j).base_addr == at(t2, k).base_addr implies j == k by {
        assert(present(t, j) && present(t, k));
    }
    assert(present(t, i));
    assert forall|j: int| #[trigger] present(t2, j) && !at(t2, j).dirty implies line_matches(t2, ls, v2, j) by {
        assert(present(t, j));
        assert(line_matches(t, ls, v, j));
        lemma_aligned_disjoint(l.base_addr as int, at(t, j).base_addr as int, ls);
    }
    assert forall|a: int| 0 <= a < v.len() implies #[trigger] overlay(t2, ls, v2)[a] == overlay(t, ls, v)[a] by {
        if covers(t, ls, i, a) {
            lemma_overlay_hit(t, ls, n, v, i, a);
            assert forall|j: int| !#[trigger] covers(t2, ls, j, a) by {
                if covers(t2, ls, j, a) {
                    assert(covers(t, ls, j, a));
                    lemma_cover_unique(t, ls, n, i, j, a);
                }
            }
            if !l.dirty {
                assert(line_matches(t, ls, v, i));
                assert(l.data@[a - l.base_addr] == v[l.base_addr + (a - l.base_addr)]);
            }
        } else if exists|j: int| covers(t, ls, j, a) {
            let j = choose|j: int| covers(t, ls, j, a);
            assert(covers(t2, ls, j, a));
            lemma_overlay_hit(t, ls, n, v, j, a);
            lemma_overlay_hit(t2, ls, n, v2, j, a);
        } else {
            assert forall|j: int| !#[trigger] covers(t2, ls, j, a) by {
                if covers(t2, ls, j, a) {
                    assert(covers(t, ls, j, a));
                }
            }
        }
    }
    assert(overlay(t2, ls, v2) =~= overlay(t, ls, v));
}

/// Putting `l` into slot `i`, which is empty or holds the same line, where
/// no other slot holds its line, shows `l` over its addresses.
pub proof fn lemma_overlay_put(t: Seq<Option<CachedLine>>, ls: int, n: int, v: Seq<u8>, i: int, l: CachedLine)
    requires
        table_wf(t, ls, n),
        0 <= i < t.len(),
        present(t, i) ==> at(t, i).base_addr == l.base_addr,
        forall|j: int| j != i ==> !#[trigger] holds(t, j, l.base_addr as int),
        l.data@.len() == ls,
        (l.base_addr as int) % ls == 0,
        l.base_addr + ls <= n,
        v.len() == n,
    ensures
        ({
            let t2 = t.update(i, Some(l));
            &&& table_wf(t2, ls, n)
            &&& overlay(t2, ls, v) == overwrite(overlay(t, ls, v), l.base_addr as int, l.data@)
        }),
{
    let t2 = t.update(i, Some(l));
    assert forall|j: int| #[trigger] present(t2, j) implies {
        &&& at(t2, j).data@.len() == ls
        &&& (at(t2, j).base_addr as int) % ls == 0
        &&& at(t2, j).base_addr + ls <= n
    } by {
        if j != i {
            assert(present(t, j));
        }
    }
    assert forall|j: int, k: int|
        #![trigger present(t2, j), present(t2, k)]
        present(t2, j) && present(t2, k) && at(t2, j).base_addr == at(t2, k).base_addr implies j == k by {
        if j != i && k != i {
            assert(present(t, j) && present(t, k));
        } else if j == i && k != i {
            assert(holds(t, k, l.base_addr as int));
        } else if j != i && k == i {
            assert(holds(t, j, l.base_addr as int));
        }
    }
    assert forall|a: int| 0 <= a < v.len() implies #[trigger] overlay(t2, ls, v)[a] == overwrite(
        overlay(t, ls, v),
        l.base_addr as int,
        l.data@,
    )[a] by {
        if l.base_addr <= a < l.base_addr + ls {
            assert(covers(t2, ls, i, a));
            lemma_overlay_hit(t2, ls, n, v, i, a);
        } else if exists|j: int| covers(t, ls, j, a) {
            let j = choose|j: int| covers(t, ls, j, a);
            assert(j != i);
            assert(covers(t2, ls, j, a));
            lemma_overlay_hit(t, ls, n, v, j, a);
            lemma_overlay_hit(t2, ls, n, v, j, a);
        } else {
            assert forall|j: int| !#[trigger] covers(t2, ls, j, a) by {
                if covers(t2, ls, j, a) && j != i {
                    assert(covers(t, ls, j, a));
                }
            }
        }
    }
    assert(overlay(t2, ls, v) =~= overwrite(overlay(t, ls, v), l.base_addr as int, l.data@));
}

/// Clean lines keep agreeing with `v` when slot `i` takes `l`, if `l` is
/// dirty or agrees with `v` itself.
pub proof fn lemma_clean_put(t: Seq<Option<CachedLine>>, ls: int, v: Seq<u8>, i: int, l: CachedLine)
    requires
        clean_match(t, ls, v),
        0 <= i < t.len(),
        !l.dirty ==> forall|k: int| 0 <= k < ls ==> #[trigger] l.data@[k] == v[l.base_addr + k],
    ensures
        clean_match(t.update(i, Some(l)), ls, v),
{
    let t2 = t.update(i, Some(l));
    assert forall|j: int| #[trigger] present(t2, j) && !at(t2, j).dirty implies line_matches(t2, ls, v, j) by {
        if j != i {
            assert(present(t, j));
            assert(line_matches(t, ls, v, j));
        }
    }
}

/// Clean lines keep agreeing with `v` when the line at `b` is overwritten
/// with `d`, if every clean copy of that line holds `d`.
pub proof fn lemma_clean_overwrite(t: Seq<Option<CachedLine>>, ls: int, n: int, v: Seq<u8>, b: int, d: Seq<u8>)
    requires
        table_wf(t, ls, n),
        clean_match(t, ls, v),
        b >= 0,
        b % ls == 0,
        d.len() == ls,
        v.len() == n,
        forall|i: int| #[trigger] holds(t, i, b) && !at(t, i).dirty ==> at(t, i).data@ == d,
    ensures
        clean_match(t, ls, overwrite(v, b, d)),
{
    assert forall|j: int| #[trigger] present(t, j) && !at(t, j).dirty implies line_matches(t, ls, overwrite(v, b, d), j) by {
        assert(line_matches(t, ls, v, j));
        let bj = at(t, j).base_addr as int;
        if bj != b {
            lemma_aligned_disjoint(b, bj, ls);
        } else {
            assert(holds(t, j, b));
        }
        assert forall|k: int| 0 <= k < ls implies #[trigger] at(t, j).data@[k] == overwrite(v, b, d)[bj + k] by {
            assert(at(t, j).data@[k] == v[bj + k]);
        }
    }
}

/// The overlay of `v` with the line at `b` overwritten by `d`, where no
/// slot holds that line.
pub proof fn lemma_overlay_overwrite(t: Seq<Option<CachedLine>>, ls: int, n: int, v: Seq<u8>, b: int, d: Seq<u8>)
    requires
        table_wf(t, ls, n),
        !holds_base(t, b),
        b >= 0,
        b % ls == 0,
        d.len() == ls,
        v.len() == n,
    ensures
        overlay(t, ls, overwrite(v, b, d)) == overwrite(overlay(t, ls, v), b, d),
{
    let v2 = overwrite(v, b, d);
    assert forall|a: int| 0 <= a < v.len() implies #[trigger] overlay(t, ls, v2)[a] == overwrite(overlay(t, ls, v), b, d)[a] by {
        if exists|j: int| covers(t, ls, j, a) {
            let j = choose|j: int| covers(t, ls, j, a);
            assert(present(t, j));
            if b <= a < b + ls {
                if at(t, j).base_addr != b {
                    lemma_aligned_disjoint(b, at(t, j).base_addr as int, ls);
                } else {
                    assert(holds(t, j, b));
                }
            }
        }
    }
    assert(overlay(t, ls, v2) =~= overwrite(overlay(t, ls, v), b, d));
}

/// What the level below must keep for a cache above it to stay coherent:
/// it observes its view, and the current requester holds every line alone.
pub open spec fn backing_sound<M: MemoryDevice>(m: M) -> bool {
    &&& m.coherent()
    &&& forall|a: int| m.accessible(a) ==> #[trigger] m.exclusive(a)
}

/// The level below after an access: accessible and exclusive addresses
/// kept, size kept.
pub open spec fn backing_frame<M: MemoryDevice>(m2: M, m1: M) -> bool {
    &&& m2.wf()
    &&& forall|b: int| #[trigger] m2.accessible(b) == m1.accessible(b)
    &&& forall|b: int| m1.exclusive(b) ==> #[trigger] m2.exclusive(b)
    &&& m2.view().len() == m1.view().len()
}

/// Every byte of the line at `base` can be accessed in `m`.
pub open spec fn line_accessible<M: MemoryDevice>(m: M, base: int, ls: int) -> bool {
    forall|k: int| 0 <= k < ls ==> #[trigger] m.accessible(base + k)
}

/// Reads the `ls` bytes at `base` from `m`, collecting the invalidations
/// that `m` queues on the way into `pending`.
pub fn read_line<M: MemoryDevice>(m: &mut M, pending: &mut Vec<usize>, base: usize, ls: usize, clock: &mut Clock) -> (data: Vec<u8>)
    requires
        old(m).wf(),
        line_accessible(*old(m), base as int, ls as int),
    ensures
        backing_frame(*final(m), *old(m)),
        final(clock)@ >= old(clock)@,
        final(m).fixed_costs() == old(m).fixed_costs(),
        old(m).fixed_costs() matches Some(c) ==> final(clock)@ == tick_by(old(clock)@, ls * c.0),
        data@.len() == ls,
        final(pending)@.len() >= old(pending)@.len(),
        backing_sound(*old(m)) ==> {
            &&& backing_sound(*final(m))
            &&& final(m).view() == old(m).view()
            &&& forall|k: int| 0 <= k < ls ==> #[trigger] data@[k] == old(m).view()[base + k]
        },
{
    let mut data: Vec<u8> = Vec::new();
    let mut i: usize = 0;
    while i < ls
        invariant
            backing_frame(*m, *old(m)),
            line_accessible(*m, base as int, ls as int),
            i <= ls,
            data@.len() == i,
            clock@ >= old(clock)@,
            m.fixed_costs() == old(m).fixed_costs(),
            old(m).fixed_costs() matches Some(c) ==> clock@ == tick_by(old(clock)@, i * c.0),
            pending@.len() >= old(pending)@.len(),
            backing_sound(*old(m)) ==> {
                &&& backing_sound(*m)
                &&& m.view() == old(m).view()
                &&& forall|k: int| 0 <= k < i ==> #[trigger] data@[k] == old(m).view()[base + k]
            },
        decreases ls - i,
    {
        proof {
            assert(m.accessible(base + i));
            m.lemma_accessible_in_range(base + i);
        }
        let ghost cb = clock@;
        let byte = m.load_u8(base + i, clock);
        proof {
            if let Some(c) = old(m).fixed_costs() {
                lemma_tick_by_twice(old(clock)@, i * c.0, c.0 as int);
                assert(i * c.0 + c.0 == (i + 1) * c.0) by (nonlinear_arith);
            }
        }
        data.push(byte);
        let mut queued = m.take_invalidations();
        pending.append(&mut queued);
        i = i + 1;
    }
    data
}

/// Writes `data` into `m` at `base`, collecting the invalidations that `m`
/// queues on the way into `pending`.
pub fn write_line<M: MemoryDevice>(m: &mut M, pending: &mut Vec<usize>, base: usize, data: &Vec<u8>, clock: &mut Clock)
    requires
        old(m).wf(),
        line_accessible(*old(m), base as int, data@.len() as int),
    ensures
        backing_frame(*final(m), *old(m)),
        final(clock)@ >= old(clock)@,
        final(m).fixed_costs() == old(m).fixed_costs(),
        old(m).fixed_costs() matches Some(c) ==> final(clock)@ == tick_by(old(clock)@, data@.len() * c.1),
        final(pending)@.len() >= old(pending)@.len(),
        backing_sound(*old(m)) ==> {
            &&& backing_sound(*final(m))
            &&& final(m).view() == overwrite(old(m).view(), base as int, data@)
        },
{
    let mut i: usize = 0;
    while i < data.len()
        invariant
            backing_frame(*m, *old(m)),
            line_accessible(*m, base as int, data@.len() as int),
            i <= data@.len(),
            clock@ >= old(clock)@,
            m.fixed_costs() == old(m).fixed_costs(),
            old(m).fixed_costs() matches Some(c) ==> clock@ == tick_by(old(clock)@, i * c.1),
            pending@.len() >= old(pending)@.len(),
            backing_sound(*old(m)) ==> {
                &&& backing_sound(*m)
                &&& m.view() == overwrite(old(m).view(), base as int, data@.subrange(0, i as int))
            },
        decreases data@.len() - i,
    {
        proof {
            assert(m.accessible(base + i));
            m.lemma_accessible_in_range(base + i);
        }
        let ghost before = m.view();
        m.store_u8(base + i, data[i], clock);
        proof {
            if let Some(c) = old(m).fixed_costs() {
                lemma_tick_by_twice(old(clock)@, i * c.1, c.1 as int);
                assert(i * c.1 + c.1 == (i + 1) * c.1) by (nonlinear_arith);
            }
            if backing_sound(*old(m)) {
                assert(m.view() =~= overwrite(old(m).view(), base as int, data@.subrange(0, i + 1)));
            }
        }
        let mut queued = m.take_invalidations();
        pending.append(&mut queued);
        i = i + 1;
    }
    proof {
        assert(data@.subrange(0, i as int) =~= data@);
    }
}

/// Takes the line out of slot `i`.
pub fn take_slot(t: &mut Vec<Option<CachedLine>>, i: usize) -> (r: Option<CachedLine>)
    requires
        i < old(t)@.len(),
    ensures
        r == old(t)@[i as int],
        final(t)@ == old(t)@.update(i as int, None),
{
    let mut tmp: Option<CachedLine> = None;
    t.set_and_swap(i, &mut tmp);
    tmp
}

/// Puts `l` into slot `i`.
pub fn put_slot(t: &mut Vec<Option<CachedLine>>, i: usize, l: CachedLine)
    requires
        i < old(t)@.len(),
    ensures
        final(t)@ == old(t)@.update(i as int, Some(l)),
{
    let mut tmp: Option<CachedLine> = Some(l);
    t.set_and_swap(i, &mut tmp);
}

/// The first slot in `lo..hi` that holds the line `base`, if any.
pub fn find_in(t: &Vec<Option<CachedLine>>, lo: usize, hi: usize, base: usize) -> (r: Option<usize>)
    requires
        lo <= hi <= t@.len(),
    ensures
        match r {
            Some(i) => lo <= i < hi && holds(t@, i as int, base as int),
            None => forall|j: int| lo <= j < hi ==> !#[trigger] holds(t@, j, base as int),
        },
{
    let mut i = lo;
    while i < hi
        invariant
            lo <= i <= hi <= t@.len(),
            forall|j: int| lo <= j < i ==> !#[trigger] holds(t@, j, base as int),
        decreases hi - i,
    {
        let found = match &t[i] {
            Some(l) => l.base_addr == base,
            None => false,
        };
        if found {
            return Some(i);
        }
        i = i + 1;
    }
    None
}

/// `t2` holds the same lines as `t1`, slot by slot, up to bookkeeping
/// (use counters, used bits, owners).
pub open spec fn same_content(t1: Seq<Option<CachedLine>>, t2: Seq<Option<CachedLine>>) -> bool {
    &&& t1.len() == t2.len()
    &&& forall|i: int| #[trigger] present(t2, i) == present(t1, i)
    &&& forall|i: int|
        #[trigger] present(t2, i) ==> {
            &&& at(t2, i).base_addr == at(t1, i).base_addr
            &&& at(t2, i).data@ == at(t1, i).data@
            &&& at(t2, i).dirty == at(t1, i).dirty
        }
}

/// Tables with the same content are equally well formed, equally clean
/// and show the same bytes.
pub proof fn lemma_same_content(t1: Seq<Option<CachedLine>>, t2: Seq<Option<CachedLine>>, ls: int, n: int, v: Seq<u8>)
    requires
        same_content(t1, t2),
        table_wf(t1, ls, n),
    ensures
        table_wf(t2, ls, n),
        clean_match(t1, ls, v) ==> clean_match(t2, ls, v),
        overlay(t2, ls, v) == overlay(t1, ls, v),
        forall|b: int| #[trigger] holds_base(t2, b) == holds_base(t1, b),
{
    assert forall|i: int, j: int|
        #![trigger present(t2, i), present(t2, j)]
        present(t2, i) && present(t2, j) && at(t2, i).base_addr == at(t2, j).base_addr implies i == j by {
        assert(present(t1, i) && present(t1, j));
    }
    assert forall|i: int| #[trigger] present(t2, i) implies {
        &&& at(t2, i).data@.len() == ls
        &&& (at(t2, i).base_addr as int) % ls == 0
        &&& at(t2, i).base_addr + ls <= n
    } by {
        assert(present(t1, i));
    }
    if clean_match(t1, ls, v) {
        assert forall|i: int| #[trigger] present(t2, i) && !at(t2, i).dirty implies line_matches(t2, ls, v, i) by {
            assert(present(t1, i));
            assert(line_matches(t1, ls, v, i));
        }
    }
    assert forall|a: int| 0 <= a < v.len() implies #[trigger] overlay(t2, ls, v)[a] == overlay(t1, ls, v)[a] by {
        if exists|i: int| covers(t1, ls, i, a) {
            let i = choose|i: int| covers(t1, ls, i, a);
            assert(present(t2, i) == present(t1, i));
            assert(covers(t2, ls, i, a));
            lemma_overlay_hit(t1, ls, n, v, i, a);
            lemma_overlay_hit(t2, ls, n, v, i, a);
        } else {
            assert forall|i: int| !#[trigger] covers(t2, ls, i, a) by {
                if covers(t2, ls, i, a) {
                    assert(covers(t1, ls, i, a));
                }
            }
        }
    }
    assert(overlay(t2, ls, v) =~= overlay(t1, ls, v));
    assert forall|b: int| #[trigger] holds_base(t2, b) == holds_base(t1, b) by {
        if holds_base(t1, b) {
            let i = choose|i: int| holds(t1, i, b);
            assert(present(t2, i) == present(t1, i));
            assert(holds(t2, i, b));
        }
        if holds_base(t2, b) {
            let i = choose|i: int| holds(t2, i, b);
            assert(holds(t1, i, b));
        }
    }
}

/// Overwriting a line that a slot holds changes nothing that shows through.
pub proof fn lemma_overlay_overwrite_held(t: Seq<Option<CachedLine>>, ls: int, n: int, v: Seq<u8>, b: int, d: Seq<u8>)
    requires
        table_wf(t, ls, n),
        holds_base(t, b),
        d.len() == ls,
        v.len() == n,
    ensures
        overlay(t, ls, overwrite(v, b, d)) == overlay(t, ls, v),
{
    let i = choose|i: int| holds(t, i, b);
    assert(present(t, i));
    assert forall|a: int| 0 <= a < v.len() implies #[trigger] overlay(t, ls, overwrite(v, b, d))[a] == overlay(t, ls, v)[a] by {
        if b <= a < b + ls {
            assert(covers(t, ls, i, a));
            lemma_overlay_hit(t, ls, n, v, i, a);
            lemma_overlay_hit(t, ls, n, overwrite(v, b, d), i, a);
        }
    }
    assert(overlay(t, ls, overwrite(v, b, d)) =~= overlay(t, ls, v));
}

/// Overwriting a stretch with what it already holds changes nothing.
pub proof fn lemma_overwrite_same(v: Seq<u8>, b: int, d: Seq<u8>)
    requires
        0 <= b,
        b + d.len() <= v.len(),
        forall|k: int| 0 <= k < d.len() ==> #[trigger] d[k] == v[b + k],
    ensures
        overwrite(v, b, d) == v,
{
    assert forall|a: int| 0 <= a < v.len() implies #[trigger] overwrite(v, b, d)[a] == v[a] by {
        if b <= a < b + d.len() {
            assert(d[a - b] == v[b + (a - b)]);
        }
    }
    assert(overwrite(v, b, d) =~= v);
}

/// Refilling slot `v` with `l`, where the line that `v` held (if any) is
/// laid over `lower` in its stead, shows `l` over its addresses and leaves
/// every other byte as it was.
pub proof fn lemma_refill_view(t: Seq<Option<CachedLine>>, ls: int, n: int, lower: Seq<u8>, lower2: Seq<u8>, v: int, l: CachedLine)
    requires
        table_wf(t, ls, n),
        clean_match(t, ls, lower),
        0 <= v < t.len(),
        !holds_base(t, l.base_addr as int),
        l.data@.len() == ls,
        (l.base_addr as int) % ls == 0,
        l.base_addr + ls <= n,
        lower.len() == n,
        lower2 == (if present(t, v) {
            overwrite(lower, at(t, v).base_addr as int, at(t, v).data@)
        } else {
            lower
        }),
    ensures
        table_wf(t.update(v, Some(l)), ls, n),
        overlay(t.update(v, Some(l)), ls, lower2) == overwrite(overlay(t, ls, lower), l.base_addr as int, l.data@),
{
    let t2 = t.update(v, None);
    assert(t2.update(v, Some(l)) =~= t.update(v, Some(l)));
    assert forall|j: int| j != v implies !#[trigger] holds(t2, j, l.base_addr as int) by {
        if holds(t2, j, l.base_addr as int) {
            assert(holds(t, j, l.base_addr as int));
        }
    }
    if present(t, v) {
        let e = at(t, v);
        lemma_overlay_remove(t, ls, n, lower, v);
        if !e.dirty {
            assert(line_matches(t, ls, lower, v));
            lemma_overwrite_same(lower, e.base_addr as int, e.data@);
        }
        lemma_overlay_put(t2, ls, n, lower2, v, l);
    } else {
        assert(t2 =~= t);
        lemma_overlay_put(t, ls, n, lower2, v, l);
    }
}

/// Putting a whole aligned line into a slot, where no other slot holds it,
/// keeps the table well formed.
pub proof fn lemma_table_replace(t: Seq<Option<CachedLine>>, ls: int, n: int, v: int, l: CachedLine)
    requires
        table_wf(t, ls, n),
        0 <= v < t.len(),
        forall|j: int| j != v ==> !#[trigger] holds(t, j, l.base_addr as int),
        l.data@.len() == ls,
        (l.base_addr as int) % ls == 0,
        l.base_addr + ls <= n,
    ensures
        table_wf(t.update(v, Some(l)), ls, n),
{
    let t2 = t.update(v, Some(l));
    assert forall|j: int| #[trigger] present(t2, j) implies {
        &&& at(t2, j).data@.len() == ls
        &&& (at(t2, j).base_addr as int) % ls == 0
        &&& at(t2, j).base_addr + ls <= n
    } by {
        if j != v {
            assert(present(t, j));
        }
    }
    assert forall|j: int, k: int|
        #![trigger present(t2, j), present(t2, k)]
        present(t2, j) && present(t2, k) && at(t2, j).base_addr == at(t2, k).base_addr implies j == k by {
        if j != v && k != v {
            assert(present(t, j) && present(t, k));
        } else if j == v && k != v {
            assert(holds(t, k, l.base_addr as int));
        } else if j != v && k == v {
            assert(holds(t, j, l.base_addr as int));
        }
    }
}

/// Changing the view under an address that a line covers changes nothing
/// that shows through.
pub proof fn lemma_overlay_update_covered(t: Seq<Option<CachedLine>>, ls: int, n: int, v: Seq<u8>, i: int, a: int, x: u8)
    requires
        table_wf(t, ls, n),
        covers(t, ls, i, a),
        v.len() == n,
        0 <= a < n,
    ensures
        overlay(t, ls, v.update(a, x)) == overlay(t, ls, v),
{
    assert forall|c: int| 0 <= c < v.len() implies #[trigger] overlay(t, ls, v.update(a, x))[c] == overlay(t, ls, v)[c] by {
        if c == a {
            lemma_overlay_hit(t, ls, n, v, i, a);
            lemma_overlay_hit(t, ls, n, v.update(a, x), i, a);
        }
    }
    assert(overlay(t, ls, v.update(a, x)) =~= overlay(t, ls, v));
}

/// Changing the view under an address that no line covers shows through.
pub proof fn lemma_overlay_update_uncovered(t: Seq<Option<CachedLine>>, ls: int, n: int, v: Seq<u8>, a: int, x: u8)
    requires
        table_wf(t, ls, n),
        forall|i: int| !#[trigger] covers(t, ls, i, a),
        v.len() == n,
        0 <= a < n,
    ensures
        overlay(t, ls, v.update(a, x)) == overlay(t, ls, v).update(a, x),
{
    assert forall|c: int| 0 <= c < v.len() implies #[trigger] overlay(t, ls, v.update(a, x))[c] == overlay(t, ls, v).update(a, x)[c] by {
        if c != a {
            if exists|i: int| covers(t, ls, i, c) {
                let i = choose|i: int| covers(t, ls, i, c);
                lemma_overlay_hit(t, ls, n, v, i, c);
                lemma_overlay_hit(t, ls, n, v.update(a, x), i, c);
            }
        }
    }
    assert(overlay(t, ls, v.update(a, x)) =~= overlay(t, ls, v).update(a, x));
}

/// Writing `x` at `a` inside the line of slot `i` shows `x` at `a`.
pub proof fn lemma_overlay_write(t: Seq<Option<CachedLine>>, ls: int, n: int, v: Seq<u8>, i: int, a: int, x: u8, l: CachedLine)
    requires
        table_wf(t, ls, n),
        covers(t, ls, i, a),
        l.base_addr == at(t, i).base_addr,
        l.data@ == at(t, i).data@.update(a - at(t, i).base_addr, x),
        v.len() == n,
    ensures
        table_wf(t.update(i, Some(l)), ls, n),
        overlay(t.update(i, Some(l)), ls, v) == overlay(t, ls, v).update(a, x),
{
    let b = l.base_addr as int;
    assert(present(t, i));
    assert forall|j: int| j != i implies !#[trigger] holds(t, j, b) by {
        if holds(t, j, b) {
            assert(present(t, j) && present(t, i));
        }
    }
    lemma_overlay_put(t, ls, n, v, i, l);
    let o = overlay(t, ls, v);
    assert forall|c: int| 0 <= c < v.len() implies #[trigger] overwrite(o, b, l.data@)[c] == o.update(a, x)[c] by {
        if b <= c < b + ls && c != a {
            assert(covers(t, ls, i, c));
            lemma_overlay_hit(t, ls, n, v, i, c);
        }
    }
    assert(overwrite(o, b, l.data@) =~= o.update(a, x));
}

/// Clean lines keep agreeing with a view changed at an address that no
/// line covers.
pub proof fn lemma_clean_update_uncovered(t: Seq<Option<CachedLine>>, ls: int, n: int, v: Seq<u8>, a: int, x: u8)
    requires
        table_wf(t, ls, n),
        v.len() == n,
        0 <= a < n,
        clean_match(t, ls, v),
        forall|i: int| !#[trigger] covers(t, ls, i, a),
    ensures
        clean_match(t, ls, v.update(a, x)),
{
    assert forall|i: int| #[trigger] present(t, i) && !at(t, i).dirty implies line_matches(t, ls, v.update(a, x), i) by {
        assert(line_matches(t, ls, v, i));
        assert(present(t, i));
        assert forall|k: int| 0 <= k < ls implies #[trigger] at(t, i).data@[k] == v.update(a, x)[at(t, i).base_addr + k] by {
            let c = at(t, i).base_addr + k;
            assert(at(t, i).data@[k] == v[c]);
            assert(0 <= c < v.len());
            if c == a {
                assert(covers(t, ls, i, a));
                assert(false);
            } else {
                assert(v.update(a, x)[c] == v[c]);
            }
        }
    }
}

/// A slot covers `a` exactly when it holds the line of `a`.
pub proof fn lemma_holds_covers(t: Seq<Option<CachedLine>>, ls: int, n: int, a: int)
    requires
        table_wf(t, ls, n),
        0 <= a,
    ensures
        forall|i: int| #[trigger] covers(t, ls, i, a) <==> holds(t, i, (a / ls) * ls),
        !holds_base(t, (a / ls) * ls) ==> forall|i: int| !#[trigger] covers(t, ls, i, a),
{
    lemma_base_of_props(a, ls);
    assert forall|i: int| #[trigger] covers(t, ls, i, a) <==> holds(t, i, (a / ls) * ls) by {
        if covers(t, ls, i, a) {
            assert(present(t, i));
            lemma_base_of(a, at(t, i).base_addr as int, ls);
        }
        if holds(t, i, (a / ls) * ls) {
            assert(present(t, i));
        }
    }
    if !holds_base(t, (a / ls) * ls) {
        assert forall|i: int| !#[trigger] covers(t, ls, i, a) by {
            if covers(t, ls, i, a) {
                assert(holds(t, i, (a / ls) * ls));
            }
        }
    }
}

/// Number of `true` entries among the first `i` of `s`.
pub open spec fn count_upto(s: Seq<bool>, i: int) -> nat
    decreases i,
{
    if i <= 0 {
        0
    } else {
        count_upto(s, i - 1) + if s[i - 1] {
            1nat
        } else {
            0nat
        }
    }
}

/// Number of `true` entries of `s`.
pub open spec fn count_true(s: Seq<bool>) -> nat {
    count_upto(s, s.len() as int)
}

pub proof fn lemma_count_bound(s: Seq<bool>, i: int)
    requires
        0 <= i,
    ensures
        count_upto(s, i) <= i,
    decreases i,
{
    if i > 0 {
        lemma_count_bound(s, i - 1);
    }
}

/// Setting entry `j` to `b` changes the count by what entry `j` changes.
pub proof fn lemma_count_update(s: Seq<bool>, j: int, b: bool, i: int)
    requires
        0 <= j < s.len(),
        0 <= i <= s.len(),
    ensures
        count_upto(s.update(j, b), i) + (if j < i && s[j] {
            1int
        } else {
            0int
        }) == count_upto(s, i) + (if j < i && b {
            1int
        } else {
            0int
        }),
    decreases i,
{
    if i > 0 {
        lemma_count_update(s, j, b, i - 1);
    }
}

/// No `true` entries count as none.
pub proof fn lemma_count_zero(s: Seq<bool>, i: int)
    requires
        0 <= i <= s.len(),
        forall|j: int| 0 <= j < s.len() ==> !#[trigger] s[j],
    ensures
        count_upto(s, i) == 0,
    decreases i,
{
    if i > 0 {
        lemma_count_zero(s, i - 1);
    }
}

/// Emptying the one slot that holds `b` drops the line `b`.
pub proof fn lemma_without_one(t: Seq<Option<CachedLine>>, b: int, i: int)
    requires
        unique(t),
        holds(t, i, b),
    ensures
        t.update(i, None) == without_lines(t, set![b]),
{
    assert forall|k: int| 0 <= k < t.len() implies #[trigger] t.update(i, None)[k] == without_lines(t, set![b])[k] by {
        if k != i && present(t, k) && at(t, k).base_addr == b {
            assert(present(t, i) && present(t, k));
        }
    }
    assert(t.update(i, None) =~= without_lines(t, set![b]));
}

/// Dropping a line that no slot holds changes nothing.
pub proof fn lemma_without_unheld(t: Seq<Option<CachedLine>>, b: int)
    requires
        !holds_base(t, b),
    ensures
        without_lines(t, set![b]) == t,
{
    assert forall|k: int| 0 <= k < t.len() implies #[trigger] without_lines(t, set![b])[k] == t[k] by {
        if present(t, k) && at(t, k).base_addr == b {
            assert(holds(t, k, b));
        }
    }
    assert(without_lines(t, set![b]) =~= t);
}

/// Dropping no line changes nothing.
pub proof fn lemma_without_nothing(t: Seq<Option<CachedLine>>)
    ensures
        without_lines(t, Set::empty()) == t,
{
    assert(without_lines(t, Set::empty()) =~= t);
}

/// Dropping the lines of `a`, then those of `b`, drops those of both.
pub proof fn lemma_without_twice(t: Seq<Option<CachedLine>>, a: Set<int>, b: Set<int>)
    ensures
        without_lines(without_lines(t, a), b) == without_lines(t, a.union(b)),
{
    assert(without_lines(without_lines(t, a), b) =~= without_lines(t, a.union(b)));
}

/// The addresses of the first `k + 1` entries of `p` are those of the
/// first `k` and entry `k`.
pub proof fn lemma_addr_set_step(p: Seq<usize>, k: int)
    requires
        0 <= k < p.len(),
    ensures
        addr_set(p.subrange(0, k + 1)) == addr_set(p.subrange(0, k)).union(set![p[k] as int]),
        addr_set(p.subrange(0, 0)) == Set::<int>::empty(),
        addr_set(p.subrange(0, p.len() as int)) == addr_set(p),
{
    let s1 = p.subrange(0, k + 1);
    let s0 = p.subrange(0, k);
    assert forall|b: int| #[trigger] addr_set(s1).contains(b) implies addr_set(s0).union(set![p[k] as int]).contains(b) by {
        let kk = choose|kk: int| 0 <= kk < s1.len() && s1[kk] as int == b;
        if kk < k {
            assert(s0[kk] == s1[kk]);
        }
    }
    assert forall|b: int| #[trigger] addr_set(s0).union(set![p[k] as int]).contains(b) implies addr_set(s1).contains(b) by {
        if addr_set(s0).contains(b) {
            let kk = choose|kk: int| 0 <= kk < s0.len() && s0[kk] as int == b;
            assert(s1[kk] == s0[kk]);
        } else {
            assert(s1[k] == p[k]);
        }
    }
    assert(addr_set(s1) =~= addr_set(s0).union(set![p[k] as int]));
    assert(addr_set(p.subrange(0, 0)) =~= Set::<int>::empty());
    assert(p.subrange(0, p.len() as int) =~= p);
}

} // verus!