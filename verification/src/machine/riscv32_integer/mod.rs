use vstd::prelude::*;

use crate::device::Clock;
use crate::device::clock::saturating_tick;
use crate::device::backcache_memory::BackCacheMemory;
use crate::device::cache_trace::{CacheAccessEvent, CacheTrace};
use crate::device::hierarchy::{MemorySystem, SharedLevels};
use crate::device::memory::table::backing_sound;
use crate::device::newcache_memory::NewCacheMemory;
use crate::device::smtcache_memory::SmtCacheMemory;
use crate::device::secdcp_memory::SecDcpMemory;
use crate::device::memory::{
    CacheTiming, MainMemory, MainMemoryTiming, MemoryDevice, SetAssociativeCache, le_u16, le_u32,
    put_u16, put_u32,
};
use crate::device::secdcp_memory::SecurityClass;
use crate::machine::{MemoryModel, MemorySegment};

pub mod builtins;
mod decode;
pub mod laws;
pub(crate) mod execute;
pub(crate) mod step;
mod tables;

pub use tables::{Builtin, BuiltinTable, CsrBank};

verus! {

/// The program counter and the 32 integer registers of an RV32I core.
///
/// Register `x0` reads as zero whatever is stored for it.
#[derive(Clone, Copy, Debug)]
pub struct Registers {
    pub pc: u32,
    pub x: [u32; 32],
}

/// ABI number of the `i`th temporary register `t<i>`.
pub open spec fn t_index(i: int) -> int {
    if i < 3 {
        5 + i
    } else {
        25 + i
    }
}

/// ABI number of the `i`th saved register `s<i>`.
pub open spec fn s_index(i: int) -> int {
    if i < 2 {
        8 + i
    } else {
        16 + i
    }
}

/// `file` after writing `v` to register `i` (a write to `x0` is dropped).
pub open spec fn write_reg(file: Seq<u32>, i: int, v: u32) -> Seq<u32> {
    if i == 0 {
        file
    } else {
        file.update(i, v)
    }
}

impl Registers {
    /// Value that reading register `i` gives.
    pub open spec fn reg(&self, i: int) -> u32 {
        if i == 0 {
            0
        } else {
            self.x@[i]
        }
    }

    /// The values that reading each of the 32 registers gives.
    pub open spec fn file(&self) -> Seq<u32> {
        Seq::new(32, |i: int| self.reg(i))
    }

    pub fn new() -> (r: Self)
        ensures
            r.pc == 0,
            forall|i: int| 0 <= i < 32 ==> #[trigger] r.reg(i) == 0,
    {
        Registers { pc: 0, x: [0u32; 32] }
    }

    pub fn x(&self, i: u8) -> (v: u32)
        requires
            i < 32,
        ensures
            v == self.reg(i as int),
    {
        if i == 0 {
            0
        } else {
            self.x[i as usize]
        }
    }

    pub fn set_x(&mut self, i: u8, v: u32)
        requires
            i < 32,
        ensures
            final(self).pc == old(self).pc,
            final(self).file() == write_reg(old(self).file(), i as int, v),
    {
        if i != 0 {
            self.x[i as usize] = v;
        }
        proof {
            assert(self.file() =~= write_reg(old(self).file(), i as int, v));
        }
    }
}

impl Registers {
    /// Argument register `a<i>` (`x10 + i`).
    pub fn a(&self, i: u8) -> (v: u32)
        requires
            i < 22,
        ensures
            v == self.reg(10 + i),
    {
        self.x(10 + i)
    }

    pub fn set_a(&mut self, i: u8, v: u32)
        requires
            i < 22,
        ensures
            final(self).pc == old(self).pc,
            final(self).file() == write_reg(old(self).file(), 10 + i, v),
    {
        self.set_x(10 + i, v);
    }

    /// Return address `ra` (`x1`).
    pub fn ra(&self) -> (v: u32)
        ensures
            v == self.reg(1),
    {
        self.x(1)
    }

    pub fn set_ra(&mut self, v: u32)
        ensures
            final(self).pc == old(self).pc,
            final(self).file() == write_reg(old(self).file(), 1, v),
    {
        self.set_x(1, v);
    }

    /// Stack pointer `sp` (`x2`).
    pub fn sp(&self) -> (v: u32)
        ensures
            v == self.reg(2),
    {
        self.x(2)
    }

    pub fn set_sp(&mut self, v: u32)
        ensures
            final(self).pc == old(self).pc,
            final(self).file() == write_reg(old(self).file(), 2, v),
    {
        self.set_x(2, v);
    }

    /// Global pointer `gp` (`x3`).
    pub fn gp(&self) -> (v: u32)
        ensures
            v == self.reg(3),
    {
        self.x(3)
    }

    pub fn set_gp(&mut self, v: u32)
        ensures
            final(self).pc == old(self).pc,
            final(self).file() == write_reg(old(self).file(), 3, v),
    {
        self.set_x(3, v);
    }

    /// Thread pointer `tp` (`x4`).
    pub fn tp(&self) -> (v: u32)
        ensures
            v == self.reg(4),
    {
        self.x(4)
    }

    pub fn set_tp(&mut self, v: u32)
        ensures
            final(self).pc == old(self).pc,
            final(self).file() == write_reg(old(self).file(), 4, v),
    {
        self.set_x(4, v);
    }

    fn t_x_index(i: u8) -> (r: u8)
        requires
            i < 7,
        ensures
            r == t_index(i as int),
            r < 32,
    {
        if i < 3 {
            5 + i
        } else {
            25 + i
        }
    }

    fn s_x_index(i: u8) -> (r: u8)
        requires
            i < 12,
        ensures
            r == s_index(i as int),
            r < 32,
    {
        if i < 2 {
            8 + i
        } else {
            16 + i
        }
    }

    /// Temporary register `t<i>`.
    pub fn t(&self, i: u8) -> (v: u32)
        requires
            i < 7,
        ensures
            v == self.reg(t_index(i as int)),
    {
        self.x(Self::t_x_index(i))
    }

    pub fn set_t(&mut self, i: u8, v: u32)
        requires
            i < 7,
        ensures
            final(self).pc == old(self).pc,
            final(self).file() == write_reg(old(self).file(), t_index(i as int), v),
    {
        self.set_x(Self::t_x_index(i), v);
    }

    /// Saved register `s<i>`.
    pub fn s(&self, i: u8) -> (v: u32)
        requires
            i < 12,
        ensures
            v == self.reg(s_index(i as int)),
    {
        self.x(Self::s_x_index(i))
    }

    pub fn set_s(&mut self, i: u8, v: u32)
        requires
            i < 12,
        ensures
            final(self).pc == old(self).pc,
            final(self).file() == write_reg(old(self).file(), s_index(i as int), v),
    {
        self.set_x(Self::s_x_index(i), v);
    }

    /// Frame pointer `fp`, which is `s0` (`x8`).
    pub fn fp(&self) -> (v: u32)
        ensures
            v == self.reg(8),
    {
        self.s(0)
    }

    pub fn set_fp(&mut self, v: u32)
        ensures
            final(self).pc == old(self).pc,
            final(self).file() == write_reg(old(self).file(), 8, v),
    {
        self.set_s(0, v);
    }
}

impl Default for Registers {
    fn default() -> (r: Self)
        ensures
            r.pc == 0,
            forall|i: int| 0 <= i < 32 ==> #[trigger] r.reg(i) == 0,
    {
        Registers::new()
    }
}

/// Size of the simulated physical memory: the whole 32-bit address space.
pub const MEMORY_SIZE: u64 = 0x1_0000_0000;

/// An RV32I core with a cycle counter and a cache hierarchy.
pub struct RiscV32IntegerMachine {
    clock: Clock,
    memory: MemorySystem,
    registers: Registers,
    builtins: BuiltinTable,
    csrs: CsrBank,
    segment: MemorySegment,
    model_instruction_fetch: bool,
    output: Vec<u8>,
    host_request: Option<u32>,
    model: MemoryModel,
}

impl RiscV32IntegerMachine {
    pub closed spec fn regs(&self) -> Registers {
        self.registers
    }

    /// Bytes of memory as a load through the hierarchy observes them.
    pub closed spec fn mem(&self) -> Seq<u8> {
        self.memory.view()
    }

    pub closed spec fn memory_spec(&self) -> MemorySystem {
        self.memory
    }

    /// The cycle counter.
    pub closed spec fn ticks(&self) -> u64 {
        self.clock@
    }

    pub closed spec fn csr_spec(&self) -> CsrBank {
        self.csrs
    }

    pub closed spec fn builtin_map(&self) -> Map<u32, Builtin> {
        self.builtins.map()
    }

    pub closed spec fn segment_spec(&self) -> MemorySegment {
        self.segment
    }

    /// Which design the first cache level follows.
    pub closed spec fn model_spec(&self) -> MemoryModel {
        self.model
    }

    pub closed spec fn fetch_modelled(&self) -> bool {
        self.model_instruction_fetch
    }

    /// Bytes printed by the program and not yet collected by the host.
    pub closed spec fn output_spec(&self) -> Seq<u8> {
        self.output@
    }

    /// A builtin that the host has still to perform.
    pub closed spec fn host_request_spec(&self) -> Option<u32> {
        self.host_request
    }

    /// Loads observe the memory view and only stores change it.
    pub closed spec fn consistent(&self) -> bool {
        &&& self.memory.coherent()
        &&& forall|a: int| 0 <= a < MEMORY_SIZE ==> #[trigger] self.memory.exclusive(a)
    }

    pub closed spec fn wf(&self) -> bool {
        &&& self.memory.wf()
        &&& self.memory.kind() == self.model
        &&& self.memory.view().len() == MEMORY_SIZE
        &&& forall|a: int| 0 <= a < MEMORY_SIZE ==> #[trigger] self.memory.accessible(a)
    }

    /// A well-formed machine's memory holds [`MEMORY_SIZE`] bytes.
    pub proof fn lemma_mem_len(&self)
        requires
            self.wf(),
        ensures
            self.mem().len() == MEMORY_SIZE,
    {
    }

    /// Everything but the memory and the clock is as in `other`.
    pub closed spec fn same_control(&self, other: &Self) -> bool {
        &&& self.model == other.model
        &&& self.registers == other.registers
        &&& self.builtins == other.builtins
        &&& self.csrs == other.csrs
        &&& self.segment == other.segment
        &&& self.model_instruction_fetch == other.model_instruction_fetch
        &&& self.output == other.output
        &&& self.host_request == other.host_request
    }

    /// A machine with 4 GiB of zeroed memory behind three inclusive-at-L1
    /// cache levels, all registers zero and the common builtins registered.
    pub fn new() -> (m: Self)
        requires
            usize::MAX >= MEMORY_SIZE,
        ensures
            m.wf(),
            m.consistent(),
            m.model_spec() == MemoryModel::Default,
            m.mem() == Seq::new(MEMORY_SIZE as nat, |i: int| 0u8),
            m.ticks() == 0,
            m.regs().pc == 0,
            forall|i: int| 0 <= i < 32 ==> #[trigger] m.regs().reg(i) == 0,
            m.builtin_map() == builtins::common_builtins(),
            m.segment_spec() == (MemorySegment { start: 0, end_exclusive: MEMORY_SIZE }),
            m.fetch_modelled(),
            m.output_spec() == Seq::<u8>::empty(),
            m.host_request_spec() == None::<u32>,
            forall|a: int| #![trigger m.memory_spec().holds_line(a)] !m.memory_spec().holds_line(a),
    {
        Self::with_memory_model(MemoryModel::Default)
    }

    /// A machine like [`Self::new`] whose first cache level follows `model`.
    pub fn with_memory_model(model: MemoryModel) -> (m: Self)
        requires
            usize::MAX >= MEMORY_SIZE,
        ensures
            m.wf(),
            m.consistent(),
            m.model_spec() == model,
            m.mem() == Seq::new(MEMORY_SIZE as nat, |i: int| 0u8),
            m.ticks() == 0,
            m.regs().pc == 0,
            forall|i: int| 0 <= i < 32 ==> #[trigger] m.regs().reg(i) == 0,
            m.builtin_map() == builtins::common_builtins(),
            m.segment_spec() == (MemorySegment { start: 0, end_exclusive: MEMORY_SIZE }),
            m.fetch_modelled(),
            m.output_spec() == Seq::<u8>::empty(),
            m.host_request_spec() == None::<u32>,
            forall|a: int| #![trigger m.memory_spec().holds_line(a)] !m.memory_spec().holds_line(a),
    {
        let memory = Self::memory_for(model, None, None);
        Self::with_memory(model, memory)
    }

    /// A machine like [`Self::with_memory_model`] whose first level records
    /// its accesses into `trace`, where it traces, and draws its random
    /// choices from `seed`, where it makes any.
    pub fn with_memory_model_trace_and_seed(model: MemoryModel, trace: Option<CacheTrace>, seed: u64) -> (m: Self)
        requires
            usize::MAX >= MEMORY_SIZE,
        ensures
            m.wf(),
            m.consistent(),
            m.model_spec() == model,
            m.mem() == Seq::new(MEMORY_SIZE as nat, |i: int| 0u8),
            m.ticks() == 0,
            m.regs().pc == 0,
            forall|i: int| 0 <= i < 32 ==> #[trigger] m.regs().reg(i) == 0,
            m.builtin_map() == builtins::common_builtins(),
            m.segment_spec() == (MemorySegment { start: 0, end_exclusive: MEMORY_SIZE }),
            m.fetch_modelled(),
            m.output_spec() == Seq::<u8>::empty(),
            m.host_request_spec() == None::<u32>,
            forall|a: int| #![trigger m.memory_spec().holds_line(a)] !m.memory_spec().holds_line(a),
    {
        let memory = Self::memory_for(model, trace, Some(seed));
        Self::with_memory(model, memory)
    }

    fn with_memory(model: MemoryModel, memory: MemorySystem) -> (m: Self)
        requires
            memory.wf(),
            memory.coherent(),
            memory.kind() == model,
            memory.view() == Seq::new(MEMORY_SIZE as nat, |i: int| 0u8),
            forall|a: int| 0 <= a < MEMORY_SIZE ==> #[trigger] memory.accessible(a),
            forall|a: int| 0 <= a < MEMORY_SIZE ==> #[trigger] memory.exclusive(a),
            forall|a: int| #![trigger memory.holds_line(a)] !memory.holds_line(a),
        ensures
            m.wf(),
            m.consistent(),
            m.model_spec() == model,
            m.mem() == Seq::new(MEMORY_SIZE as nat, |i: int| 0u8),
            m.ticks() == 0,
            m.regs().pc == 0,
            forall|i: int| 0 <= i < 32 ==> #[trigger] m.regs().reg(i) == 0,
            m.builtin_map() == builtins::common_builtins(),
            m.segment_spec() == (MemorySegment { start: 0, end_exclusive: MEMORY_SIZE }),
            m.fetch_modelled(),
            m.output_spec() == Seq::<u8>::empty(),
            m.host_request_spec() == None::<u32>,
            forall|a: int| #![trigger m.memory_spec().holds_line(a)] !m.memory_spec().holds_line(a),
    {
        let mut machine = RiscV32IntegerMachine {
            clock: Clock::new(),
            memory,
            registers: Registers::new(),
            builtins: BuiltinTable::new(),
            csrs: CsrBank::new(),
            segment: MemorySegment { start: 0, end_exclusive: MEMORY_SIZE },
            model_instruction_fetch: true,
            output: Vec::new(),
            host_request: None,
            model,
        };
        builtins::register_common_builtins(&mut machine);
        machine
    }

    /// The timing of every first cache level.
    fn first_level_timing() -> (t: CacheTiming)
        ensures
            t == (CacheTiming {
                load_hit: 4,
                load_miss: 12,
                store_hit: 4,
                store_miss: 12,
                write_back: 8,
                invalidation_send: 1,
                invalidation_apply: 1,
            }),
    {
        CacheTiming {
            load_hit: 4,
            load_miss: 12,
            store_hit: 4,
            store_miss: 12,
            write_back: 8,
            invalidation_send: 1,
            invalidation_apply: 1,
        }
    }

    /// Second and third cache levels of 64-byte lines (L2: 1024 sets x 16
    /// ways, L3: 8192 x 16) over `size` bytes of zeroed memory; L2 evictions
    /// invalidate the level above.
    fn shared_levels(size: usize) -> (m: SharedLevels)
        requires
            size == MEMORY_SIZE,
        ensures
            m.wf(),
            backing_sound(m),
            m.view() == Seq::new(size as nat, |i: int| 0u8),
            forall|a: int| 0 <= a < size ==> #[trigger] m.accessible(a),
            forall|a: int| #![trigger m.holds_line(a)] !m.holds_line(a),
    {
        let main = MainMemory::new(size).with_clock().with_timing(
            MainMemoryTiming { load: 300, store: 300 },
        );
        let l3 = SetAssociativeCache::new(64, 8192, 16, main).with_clock().with_timing(
            CacheTiming {
                load_hit: 45,
                load_miss: 90,
                store_hit: 45,
                store_miss: 90,
                write_back: 70,
                invalidation_send: 1,
                invalidation_apply: 1,
            },
        );
        proof {
            l3.lemma_accessible_below(size as int);
        }
        let mut l2 = SetAssociativeCache::new(64, 1024, 16, l3).with_clock().with_timing(
            CacheTiming {
                load_hit: 12,
                load_miss: 35,
                store_hit: 12,
                store_miss: 35,
                write_back: 20,
                invalidation_send: 1,
                invalidation_apply: 1,
            },
        );
        l2.set_invalidation_listener();
        proof {
            l2.lemma_accessible_below(size as int);
        }
        l2
    }

    /// The whole hierarchy of `model`: a first level of 64-byte lines and
    /// 64 x 8 lines in all (two slices of 32 x 8 for SMTcache) over the
    /// shared levels.
    fn memory_for(model: MemoryModel, trace: Option<CacheTrace>, seed: Option<u64>) -> (m: MemorySystem)
        requires
            usize::MAX >= MEMORY_SIZE,
        ensures
            m.wf(),
            m.coherent(),
            m.kind() == model,
            m.view() == Seq::new(MEMORY_SIZE as nat, |i: int| 0u8),
            forall|a: int| 0 <= a < MEMORY_SIZE ==> #[trigger] m.accessible(a),
            forall|a: int| 0 <= a < MEMORY_SIZE ==> #[trigger] m.exclusive(a),
            forall|a: int| #![trigger m.holds_line(a)] !m.holds_line(a),
    {
        let size = MEMORY_SIZE as usize;
        let shared = Self::shared_levels(size);
        match model {
            MemoryModel::Default => {
                let l1 = SetAssociativeCache::new(64, 64, 8, shared).with_clock().with_timing(
                    Self::first_level_timing(),
                );
                proof {
                    l1.lemma_accessible_below(size as int);
                }
                MemorySystem::Default(l1)
            },
            MemoryModel::BackCache => {
                let l1 = BackCacheMemory::new(64, 64, 8, shared).with_clock().with_timing(
                    Self::first_level_timing(),
                );
                proof {
                    l1.lemma_accessible_below(size as int);
                }
                MemorySystem::BackCache(l1)
            },
            MemoryModel::NewCache => {
                let mut l1 = NewCacheMemory::new(64, 64, 8, shared).with_clock().with_timing(
                    Self::first_level_timing(),
                );
                match seed {
                    Some(s) => {
                        l1 = l1.with_seed(s);
                    },
                    None => {},
                }
                match trace {
                    Some(t) => {
                        l1 = l1.with_trace(t);
                    },
                    None => {},
                }
                proof {
                    l1.lemma_accessible_below(size as int);
                }
                MemorySystem::NewCache(l1)
            },
            MemoryModel::SmtCache => {
                let mut l1 = SmtCacheMemory::new(64, 32, 8, 2, shared).with_clock().with_timing(
                    Self::first_level_timing(),
                );
                match trace {
                    Some(t) => {
                        l1 = l1.with_trace(t);
                    },
                    None => {},
                }
                proof {
                    l1.lemma_accessible_below(size as int);
                }
                MemorySystem::SmtCache(l1)
            },
            MemoryModel::SecDcp => {
                let l1 = SecDcpMemory::new(64, 64, 8, shared).with_clock().with_timing(
                    Self::first_level_timing(),
                );
                proof {
                    l1.lemma_accessible_below(size as int);
                }
                MemorySystem::SecDcp(l1)
            },
        }
    }
}

impl RiscV32IntegerMachine {
    /// Everything but the builtin table is as in `other`.
    pub closed spec fn same_except_builtins(&self, other: &Self) -> bool {
        &&& self.model == other.model
        &&& self.clock == other.clock
        &&& self.memory == other.memory
        &&& self.registers == other.registers
        &&& self.csrs == other.csrs
        &&& self.segment == other.segment
        &&& self.model_instruction_fetch == other.model_instruction_fetch
        &&& self.output == other.output
        &&& self.host_request == other.host_request
    }

    /// Makes an environment call with `a7 == number` run `builtin`.
    pub fn register_builtin(&mut self, number: u32, builtin: Builtin)
        ensures
            final(self).builtin_map() == old(self).builtin_map().insert(number, builtin),
            final(self).same_except_builtins(old(self)),
            final(self).wf() == old(self).wf(),
            final(self).consistent() == old(self).consistent(),
            final(self).mem() == old(self).mem(),
            final(self).regs() == old(self).regs(),
            final(self).ticks() == old(self).ticks(),
    {
        self.builtins.insert(number, builtin);
    }
}

impl RiscV32IntegerMachine {
    /// Builtins, control registers, segment, fetch mode, output and host
    /// request are as in `other`.
    pub closed spec fn same_periphery(&self, other: &Self) -> bool {
        &&& self.model == other.model
        &&& self.builtins == other.builtins
        &&& self.csrs == other.csrs
        &&& self.segment == other.segment
        &&& self.model_instruction_fetch == other.model_instruction_fetch
        &&& self.output == other.output
        &&& self.host_request == other.host_request
    }

    /// Advances the cycle counter by `n`.
    pub(crate) fn advance_clock(&mut self, n: u64)
        ensures
            final(self).ticks() == saturating_tick(old(self).ticks(), n),
            final(self).regs() == old(self).regs(),
            final(self).memory_spec() == old(self).memory_spec(),
            final(self).same_periphery(old(self)),
            final(self).wf() == old(self).wf(),
            final(self).consistent() == old(self).consistent(),
            final(self).mem() == old(self).mem(),
    {
        self.clock.advance(n);
    }

    /// Sets the cycle counter back to zero.
    pub(crate) fn reset_clock(&mut self)
        ensures
            final(self).ticks() == 0,
            final(self).regs() == old(self).regs(),
            final(self).memory_spec() == old(self).memory_spec(),
            final(self).same_periphery(old(self)),
            final(self).wf() == old(self).wf(),
            final(self).consistent() == old(self).consistent(),
            final(self).mem() == old(self).mem(),
    {
        self.clock.reset();
    }

    /// Writes `b` at `addr` in main memory, past every cache.
    pub(crate) fn store_backmost(&mut self, addr: u32, b: u8)
        requires
            old(self).wf(),
        ensures
            final(self).wf(),
            final(self).regs() == old(self).regs(),
            final(self).same_periphery(old(self)),
            final(self).ticks() >= old(self).ticks(),
            forall|a: int| #[trigger] final(self).memory_spec().holds_line(a) == old(self).memory_spec().holds_line(a),
            old(self).consistent() && !old(self).memory_spec().holds_line(addr as int) ==> {
                &&& final(self).mem() == old(self).mem().update(addr as int, b)
                &&& final(self).consistent()
            },
    {
        proof {
            assert(self.memory.accessible(addr as int));
        }
        self.memory.store_backmost_u8(addr as usize, b, &mut self.clock);
    }

    /// Attributes the memory accesses that follow to process `pid` of domain
    /// `domain`, whose class is `class`.
    pub fn set_requester_identity(&mut self, class: SecurityClass, pid: u32, domain: u32)
        ensures
            final(self).memory_spec().requester_class() == if old(self).memory_spec().single_domain() {
                None
            } else {
                Some(class)
            },
            final(self).memory_spec().requester_ids() == if old(self).memory_spec().kind() is NewCache
                || old(self).memory_spec().kind() is SmtCache {
                Some((pid, domain))
            } else {
                None::<(u32, u32)>
            },
            final(self).memory_spec().kind() == old(self).memory_spec().kind(),
            final(self).regs() == old(self).regs(),
            final(self).same_periphery(old(self)),
            final(self).ticks() == old(self).ticks(),
            old(self).memory_spec().single_domain() ==> final(self).memory_spec() == old(
                self,
            ).memory_spec(),
            old(self).wf() ==> final(self).wf(),
            old(self).memory_spec().single_domain() ==> final(self).consistent() == old(
                self,
            ).consistent(),
            old(self).memory_spec().single_domain() ==> final(self).mem() == old(self).mem(),
    {
        self.memory.set_requester_identity(class, pid, domain);
    }

    /// Tells the first cache level that another program runs from now on.
    pub fn notify_context_switch(&mut self)
        requires
            old(self).wf(),
        ensures
            forall|b: int| #[trigger] final(self).memory_spec().backup_line(b) == match old(
                self,
            ).memory_spec().backup_line(b) {
                Some(e) => Some((e.0, false)),
                None => None,
            },
            final(self).memory_spec().kind() == old(self).memory_spec().kind(),
            final(self).wf(),
            final(self).regs() == old(self).regs(),
            final(self).same_periphery(old(self)),
            final(self).ticks() == old(self).ticks(),
            final(self).mem() == old(self).mem(),
            old(self).consistent() ==> final(self).consistent(),
            !(old(self).model_spec() is BackCache) ==> final(self).memory_spec() == old(self).memory_spec(),
    {
        self.memory.notify_context_switch();
    }

    /// Hands over what the first cache level has traced so far.
    pub fn drain_cache_trace(&mut self) -> (events: Vec<CacheAccessEvent>)
        ensures
            events@ == old(self).memory_spec().trace_events(),
            final(self).memory_spec().trace_events() == Seq::<CacheAccessEvent>::empty(),
            final(self).memory_spec().kind() == old(self).memory_spec().kind(),
            final(self).regs() == old(self).regs(),
            final(self).same_periphery(old(self)),
            final(self).ticks() == old(self).ticks(),
            final(self).mem() == old(self).mem(),
            final(self).wf() == old(self).wf(),
            final(self).consistent() == old(self).consistent(),
            old(self).memory_spec().single_domain() ==> events@.len() == 0,
    {
        let events = self.memory.drain_trace();
        proof {
            assert(self.memory.wf() == old(self).memory.wf());
            assert(self.memory.view() == old(self).memory.view());
            assert(self.memory.kind() == old(self).memory.kind());
            assert(self.model == old(self).model);
            assert(self.memory.view().len() == old(self).memory.view().len());
            if old(self).wf() {
                assert(self.wf());
            }
            if self.wf() {
                assert forall|a: int| 0 <= a < MEMORY_SIZE implies #[trigger] old(self).memory.accessible(a) by {
                    assert(self.memory.accessible(a));
                }
                assert(old(self).wf());
            }
            assert forall|a: int| 0 <= a < MEMORY_SIZE implies #[trigger] self.memory.accessible(a) == old(self).memory.accessible(a) by {}
            assert forall|a: int| 0 <= a < MEMORY_SIZE implies #[trigger] self.memory.exclusive(a) == old(self).memory.exclusive(a) by {
                assert(self.memory.kind() == old(self).memory.kind());
            }
        }
        events
    }

    /// Attributes the memory accesses that follow to a program of class `class`.
    pub fn set_security_class(&mut self, class: SecurityClass)
        ensures
            final(self).memory_spec().requester_class() == if old(self).memory_spec().single_domain() {
                None
            } else {
                Some(class)
            },
            final(self).memory_spec().requester_ids() == if old(self).memory_spec().kind() is NewCache
                || old(self).memory_spec().kind() is SmtCache {
                Some((0u32, 0u32))
            } else {
                None::<(u32, u32)>
            },
            final(self).memory_spec().kind() == old(self).memory_spec().kind(),
            final(self).regs() == old(self).regs(),
            final(self).same_periphery(old(self)),
            final(self).ticks() == old(self).ticks(),
            old(self).memory_spec().single_domain() ==> final(self).memory_spec() == old(
                self,
            ).memory_spec(),
            old(self).wf() ==> final(self).wf(),
            old(self).memory_spec().single_domain() ==> final(self).consistent() == old(
                self,
            ).consistent(),
            old(self).memory_spec().single_domain() ==> final(self).mem() == old(self).mem(),
    {
        self.set_requester_identity(class, 0, 0);
    }

    /// Builtins, control registers, segment and fetch mode are as in `other`.
    pub closed spec fn same_config(&self, other: &Self) -> bool {
        &&& self.model == other.model
        &&& self.builtins == other.builtins
        &&& self.csrs == other.csrs
        &&& self.segment == other.segment
        &&& self.model_instruction_fetch == other.model_instruction_fetch
    }

    /// What `same_periphery` keeps, part by part.
    pub broadcast proof fn lemma_same_periphery(a: &Self, b: &Self)
        requires
            #[trigger] a.same_periphery(b),
        ensures
            a.model_spec() == b.model_spec(),
            a.builtin_map() == b.builtin_map(),
            a.csr_spec() == b.csr_spec(),
            a.segment_spec() == b.segment_spec(),
            a.fetch_modelled() == b.fetch_modelled(),
            a.output_spec() == b.output_spec(),
            a.host_request_spec() == b.host_request_spec(),
    {
    }

    /// Registering builtins one after another changes nothing else.
    pub broadcast proof fn lemma_except_builtins_trans(a: &Self, b: &Self, c: &Self)
        requires
            #[trigger] a.same_except_builtins(b),
            #[trigger] b.same_except_builtins(c),
        ensures
            a.same_except_builtins(c),
    {
    }

    /// A machine has its own periphery.
    pub proof fn lemma_periphery_refl(a: &Self)
        ensures
            a.same_periphery(a),
    {
    }

    /// Keeping the periphery twice keeps it.
    pub broadcast proof fn lemma_periphery_trans(a: &Self, b: &Self, c: &Self)
        requires
            #[trigger] a.same_periphery(b),
            #[trigger] b.same_periphery(c),
        ensures
            a.same_periphery(c),
    {
    }

    /// A well-formed machine's hierarchy follows its model.
    pub broadcast proof fn lemma_wf_kind(m: &Self)
        requires
            #[trigger] m.wf(),
        ensures
            m.memory_spec().kind() == m.model_spec(),
    {
    }

    /// What `same_config` keeps, part by part.
    pub broadcast proof fn lemma_same_config(a: &Self, b: &Self)
        requires
            #[trigger] a.same_config(b),
        ensures
            a.model_spec() == b.model_spec(),
            a.builtin_map() == b.builtin_map(),
            a.csr_spec() == b.csr_spec(),
            a.segment_spec() == b.segment_spec(),
            a.fetch_modelled() == b.fetch_modelled(),
    {
    }

    /// What `same_memory` keeps, part by part.
    pub broadcast proof fn lemma_same_memory(a: &Self, b: &Self)
        requires
            #[trigger] a.same_memory(b),
        ensures
            a.memory_spec() == b.memory_spec(),
            a.mem() == b.mem(),
            a.ticks() == b.ticks(),
    {
    }

    /// Appends `bytes` to what the program has printed.
    pub(crate) fn append_output(&mut self, bytes: Vec<u8>)
        ensures
            final(self).output_spec() == old(self).output_spec() + bytes@,
            final(self).host_request_spec() == old(self).host_request_spec(),
            final(self).regs() == old(self).regs(),
            final(self).same_memory(old(self)),
            final(self).same_config(old(self)),
            final(self).wf() == old(self).wf(),
            final(self).consistent() == old(self).consistent(),
            final(self).mem() == old(self).mem(),
            final(self).ticks() == old(self).ticks(),
    {
        let mut bytes = bytes;
        self.output.append(&mut bytes);
    }

    /// Memory and clock are as in `other`.
    pub closed spec fn same_memory(&self, other: &Self) -> bool {
        &&& self.memory == other.memory
        &&& self.clock == other.clock
    }

    /// Whether a program may access the `len` bytes at `addr`.
    pub open spec fn access_ok(&self, addr: int, len: int) -> bool {
        &&& self.segment_spec().covers(addr, len)
        &&& addr + len <= MEMORY_SIZE
    }

    pub fn x(&self, i: u8) -> (v: u32)
        requires
            i < 32,
        ensures
            v == self.regs().reg(i as int),
    {
        self.registers.x(i)
    }

    pub fn set_x(&mut self, i: u8, v: u32)
        requires
            i < 32,
        ensures
            final(self).regs().pc == old(self).regs().pc,
            final(self).regs().file() == write_reg(old(self).regs().file(), i as int, v),
            final(self).same_memory(old(self)),
            final(self).same_periphery(old(self)),
            final(self).wf() == old(self).wf(),
            final(self).consistent() == old(self).consistent(),
            final(self).mem() == old(self).mem(),
            final(self).ticks() == old(self).ticks(),
    {
        self.registers.set_x(i, v);
    }

    pub fn set_pc(&mut self, pc: u32)
        ensures
            final(self).regs().pc == pc,
            final(self).regs().file() == old(self).regs().file(),
            final(self).same_memory(old(self)),
            final(self).same_periphery(old(self)),
            final(self).wf() == old(self).wf(),
            final(self).consistent() == old(self).consistent(),
            final(self).mem() == old(self).mem(),
            final(self).ticks() == old(self).ticks(),
    {
        self.registers.pc = pc;
    }

    /// A copy of the program counter and registers.
    pub fn snapshot_registers(&self) -> (r: Registers)
        ensures
            r == self.regs(),
    {
        self.registers
    }

    pub fn restore_registers(&mut self, registers: &Registers)
        ensures
            final(self).regs() == *registers,
            final(self).same_memory(old(self)),
            final(self).same_periphery(old(self)),
            final(self).wf() == old(self).wf(),
            final(self).consistent() == old(self).consistent(),
            final(self).mem() == old(self).mem(),
            final(self).ticks() == old(self).ticks(),
    {
        self.registers = *registers;
    }

    /// Cycles elapsed since the machine was created or a binary was loaded.
    pub fn cycle_count(&self) -> (t: u64)
        ensures
            t == self.ticks(),
    {
        self.clock.curr_tick()
    }

    /// Size in bytes of the simulated memory.
    pub fn memory_size_bytes(&self) -> (n: u64)
        ensures
            n == MEMORY_SIZE,
    {
        MEMORY_SIZE
    }

    /// Restricts the addresses the program may access to `segment`.
    pub fn set_memory_segment(&mut self, segment: MemorySegment)
        ensures
            final(self).segment_spec() == segment,
            final(self).model_spec() == old(self).model_spec(),
            final(self).regs() == old(self).regs(),
            final(self).same_memory(old(self)),
            final(self).builtin_map() == old(self).builtin_map(),
            final(self).csr_spec() == old(self).csr_spec(),
            final(self).output_spec() == old(self).output_spec(),
            final(self).host_request_spec() == old(self).host_request_spec(),
            final(self).fetch_modelled() == old(self).fetch_modelled(),
            final(self).wf() == old(self).wf(),
            final(self).consistent() == old(self).consistent(),
            final(self).mem() == old(self).mem(),
            final(self).ticks() == old(self).ticks(),
    {
        self.segment = segment;
    }

    /// Whether instruction fetches go through the caches (and their timing)
    /// or read memory without side effects.
    pub fn set_model_instruction_fetch(&mut self, enabled: bool)
        ensures
            final(self).fetch_modelled() == enabled,
            final(self).regs() == old(self).regs(),
            final(self).same_memory(old(self)),
            final(self).builtin_map() == old(self).builtin_map(),
            final(self).csr_spec() == old(self).csr_spec(),
            final(self).output_spec() == old(self).output_spec(),
            final(self).host_request_spec() == old(self).host_request_spec(),
            final(self).segment_spec() == old(self).segment_spec(),
            final(self).wf() == old(self).wf(),
            final(self).consistent() == old(self).consistent(),
            final(self).mem() == old(self).mem(),
            final(self).ticks() == old(self).ticks(),
    {
        self.model_instruction_fetch = enabled;
    }

    /// Hands over the bytes the program printed since the last call.
    pub fn take_output(&mut self) -> (out: Vec<u8>)
        ensures
            out@ == old(self).output_spec(),
            final(self).output_spec() == Seq::<u8>::empty(),
            final(self).regs() == old(self).regs(),
            final(self).same_memory(old(self)),
            final(self).builtin_map() == old(self).builtin_map(),
            final(self).segment_spec() == old(self).segment_spec(),
            final(self).host_request_spec() == old(self).host_request_spec(),
            final(self).wf() == old(self).wf(),
            final(self).consistent() == old(self).consistent(),
            final(self).mem() == old(self).mem(),
            final(self).ticks() == old(self).ticks(),
    {
        let mut out: Vec<u8> = Vec::new();
        std::mem::swap(&mut out, &mut self.output);
        out
    }

    /// Hands over the builtin the host must perform, if the last step
    /// requested one.
    pub fn take_host_request(&mut self) -> (req: Option<u32>)
        ensures
            req == old(self).host_request_spec(),
            final(self).host_request_spec() == None::<u32>,
            final(self).csr_spec() == old(self).csr_spec(),
            final(self).model_spec() == old(self).model_spec(),
            final(self).regs() == old(self).regs(),
            final(self).same_memory(old(self)),
            final(self).builtin_map() == old(self).builtin_map(),
            final(self).segment_spec() == old(self).segment_spec(),
            final(self).output_spec() == old(self).output_spec(),
            final(self).wf() == old(self).wf(),
            final(self).consistent() == old(self).consistent(),
            final(self).mem() == old(self).mem(),
            final(self).ticks() == old(self).ticks(),
    {
        let req = self.host_request;
        self.host_request = None;
        req
    }
}

impl RiscV32IntegerMachine {
    pub fn load_u8(&mut self, addr: u32) -> (v: u8)
        requires
            old(self).wf(),
        ensures
            final(self).wf(),
            final(self).regs() == old(self).regs(),
            final(self).same_periphery(old(self)),
            final(self).ticks() >= old(self).ticks(),
            old(self).consistent() ==> {
                &&& v == old(self).mem()[addr as int]
                &&& final(self).mem() == old(self).mem()
                &&& final(self).consistent()
            },
    {
        proof {
            assert(self.memory.accessible(addr as int));
        }
        self.memory.load_u8(addr as usize, &mut self.clock)
    }

    pub fn load_i8(&mut self, addr: u32) -> (v: i8)
        requires
            old(self).wf(),
        ensures
            final(self).wf(),
            final(self).regs() == old(self).regs(),
            final(self).same_periphery(old(self)),
            final(self).ticks() >= old(self).ticks(),
            old(self).consistent() ==> {
                &&& v == old(self).mem()[addr as int] as i8
                &&& final(self).mem() == old(self).mem()
                &&& final(self).consistent()
            },
    {
        self.load_u8(addr) as i8
    }

    pub fn load_u16(&mut self, addr: u32) -> (v: u16)
        requires
            old(self).wf(),
            addr + 1 < MEMORY_SIZE,
        ensures
            final(self).wf(),
            final(self).regs() == old(self).regs(),
            final(self).same_periphery(old(self)),
            final(self).ticks() >= old(self).ticks(),
            old(self).consistent() ==> {
                &&& v == le_u16(old(self).mem(), addr as int)
                &&& final(self).mem() == old(self).mem()
                &&& final(self).consistent()
            },
    {
        proof {
            assert(self.memory.accessible(addr as int));
            assert(self.memory.accessible(addr + 1));
        }
        self.memory.load_u16(addr as usize, &mut self.clock)
    }

    pub fn load_i16(&mut self, addr: u32) -> (v: i16)
        requires
            old(self).wf(),
            addr + 1 < MEMORY_SIZE,
        ensures
            final(self).wf(),
            final(self).regs() == old(self).regs(),
            final(self).same_periphery(old(self)),
            final(self).ticks() >= old(self).ticks(),
            old(self).consistent() ==> {
                &&& v == le_u16(old(self).mem(), addr as int) as u16 as i16
                &&& final(self).mem() == old(self).mem()
                &&& final(self).consistent()
            },
    {
        self.load_u16(addr) as i16
    }

    pub fn load_u32(&mut self, addr: u32) -> (v: u32)
        requires
            old(self).wf(),
            addr + 3 < MEMORY_SIZE,
        ensures
            final(self).wf(),
            final(self).regs() == old(self).regs(),
            final(self).same_periphery(old(self)),
            final(self).ticks() >= old(self).ticks(),
            old(self).consistent() ==> {
                &&& v == le_u32(old(self).mem(), addr as int)
                &&& final(self).mem() == old(self).mem()
                &&& final(self).consistent()
            },
    {
        proof {
            assert(self.memory.accessible(addr as int));
            assert(self.memory.accessible(addr + 1));
            assert(self.memory.accessible(addr + 2));
            assert(self.memory.accessible(addr + 3));
        }
        self.memory.load_u32(addr as usize, &mut self.clock)
    }

    pub fn store_u8(&mut self, addr: u32, v: u8)
        requires
            old(self).wf(),
        ensures
            final(self).wf(),
            final(self).regs() == old(self).regs(),
            final(self).same_periphery(old(self)),
            final(self).ticks() >= old(self).ticks(),
            old(self).consistent() ==> {
                &&& final(self).mem() == old(self).mem().update(addr as int, v)
                &&& final(self).consistent()
            },
    {
        proof {
            assert(self.memory.accessible(addr as int));
        }
        self.memory.store_u8(addr as usize, v, &mut self.clock)
    }

    pub fn store_u16(&mut self, addr: u32, v: u16)
        requires
            old(self).wf(),
            addr + 1 < MEMORY_SIZE,
        ensures
            final(self).wf(),
            final(self).regs() == old(self).regs(),
            final(self).same_periphery(old(self)),
            final(self).ticks() >= old(self).ticks(),
            old(self).consistent() ==> {
                &&& final(self).mem() == put_u16(old(self).mem(), addr as int, v)
                &&& final(self).consistent()
            },
    {
        proof {
            assert(self.memory.accessible(addr as int));
            assert(self.memory.accessible(addr + 1));
        }
        self.memory.store_u16(addr as usize, v, &mut self.clock)
    }

    pub fn store_u32(&mut self, addr: u32, v: u32)
        requires
            old(self).wf(),
            addr + 3 < MEMORY_SIZE,
        ensures
            final(self).wf(),
            final(self).regs() == old(self).regs(),
            final(self).same_periphery(old(self)),
            final(self).ticks() >= old(self).ticks(),
            old(self).consistent() ==> {
                &&& final(self).mem() == put_u32(old(self).mem(), addr as int, v)
                &&& final(self).consistent()
            },
    {
        proof {
            assert(self.memory.accessible(addr as int));
            assert(self.memory.accessible(addr + 1));
            assert(self.memory.accessible(addr + 2));
            assert(self.memory.accessible(addr + 3));
        }
        self.memory.store_u32(addr as usize, v, &mut self.clock)
    }
}

} // verus!
