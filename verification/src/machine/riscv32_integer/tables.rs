use vstd::prelude::*;

use std::collections::BTreeMap;

verus! {

broadcast use {vstd::std_specs::btree::group_btree_axioms, vstd::laws_cmp::group_laws_cmp};

/// What an environment call with a given number in `a7` does.
#[derive(Clone, Copy, Debug, PartialEq, Eq)]
pub enum Builtin {
    /// Formats the string at `a0` with the arguments in `a1..` into the output.
    Printf,
    /// Puts the cycle counter in `a0` (low word) and `a1` (high word).
    CycleCount,
    /// Puts a random word in `a0`; the host supplies it.
    Random,
    /// Does nothing, and asks a scheduler to switch programs.
    Yield,
    /// Puts `a0 % a1` in `a0`.
    Modulo,
    /// Performed by the host, after the step that requested it.
    Host,
}

/// The control and status registers; an unwritten one reads as zero.
pub struct CsrBank {
    store: BTreeMap<u16, u32>,
}

impl CsrBank {
    pub closed spec fn map(&self) -> Map<u16, u32> {
        self.store@
    }

    /// Value that reading register `csr` gives.
    pub open spec fn value(&self, csr: u16) -> u32 {
        if self.map().contains_key(csr) {
            self.map()[csr]
        } else {
            0
        }
    }

    pub fn new() -> (b: Self)
        ensures
            b.map() == Map::<u16, u32>::empty(),
    {
        CsrBank { store: BTreeMap::new() }
    }

    pub fn read(&self, csr: u16) -> (v: u32)
        ensures
            v == self.value(csr),
    {
        match self.store.get(&csr) {
            Some(v) => *v,
            None => 0,
        }
    }

    pub fn write(&mut self, csr: u16, value: u32)
        ensures
            final(self).map() == old(self).map().insert(csr, value),
    {
        self.store.insert(csr, value);
    }
}

/// The environment calls a machine knows, by call number.
pub struct BuiltinTable {
    map: BTreeMap<u32, Builtin>,
}

impl BuiltinTable {
    pub closed spec fn map(&self) -> Map<u32, Builtin> {
        self.map@
    }

    pub fn new() -> (t: Self)
        ensures
            t.map() == Map::<u32, Builtin>::empty(),
    {
        BuiltinTable { map: BTreeMap::new() }
    }

    pub fn get(&self, number: u32) -> (b: Option<Builtin>)
        ensures
            b == (if self.map().contains_key(number) {
                Some(self.map()[number])
            } else {
                None
            }),
    {
        match self.map.get(&number) {
            Some(b) => Some(*b),
            None => None,
        }
    }

    pub fn insert(&mut self, number: u32, builtin: Builtin)
        ensures
            final(self).map() == old(self).map().insert(number, builtin),
    {
        self.map.insert(number, builtin);
    }
}

} // verus!
