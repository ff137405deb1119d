use vstd::prelude::*;

verus! {

/// Hands out bus indices, each once, in increasing order.
pub struct BusIndexManager {
    bus_idx_max: usize,
}

impl BusIndexManager {
    /// Every index below this one has been handed out.
    pub closed spec fn next_index(&self) -> int {
        self.bus_idx_max as int
    }

    pub fn new() -> (r: Self)
        ensures
            r.next_index() == 0,
    {
        BusIndexManager { bus_idx_max: 0 }
    }

    /// A bus index that no earlier call returned, or `None` once every index
    /// is taken.
    pub fn new_bus_idx(&mut self) -> (r: Option<usize>)
        ensures
            old(self).next_index() == usize::MAX ==> r is None && final(self).next_index()
                == old(self).next_index(),
            old(self).next_index() < usize::MAX ==> r == Some(old(self).next_index() as usize)
                && final(self).next_index() == old(self).next_index() + 1,
    {
        if self.bus_idx_max == usize::MAX {
            return None;
        }
        let idx = self.bus_idx_max;
        self.bus_idx_max = idx + 1;
        Some(idx)
    }
}

/// Number of system buses: execution, memory, program and range checker, plus
/// the Merkle and compression buses of a machine with continuations.
pub open spec fn system_bus_count(continuation_enabled: bool) -> nat {
    if continuation_enabled {
        6
    } else {
        4
    }
}

/// The buses that a machine with continuations adds.
#[derive(Clone, Copy, Debug, PartialEq, Eq, Structural)]
pub struct ContinuationBuses {
    pub merkle_bus: usize,
    pub compression_bus: usize,
}

/// The buses of the system chips, allocated when the machine is built.
#[derive(Clone, Copy, Debug, PartialEq, Eq, Structural)]
pub struct SystemBase {
    execution_bus: usize,
    memory_bus: usize,
    program_bus: usize,
    range_checker_bus: usize,
    /// The Merkle and compression buses, present with continuations.
    continuation_buses: Option<ContinuationBuses>,
}

impl SystemBase {
    /// The bus ids in allocation order.
    pub closed spec fn buses(&self) -> Seq<usize> {
        let base = seq![self.execution_bus, self.memory_bus, self.program_bus, self.range_checker_bus];
        match self.continuation_buses {
            Some(c) => base + seq![c.merkle_bus, c.compression_bus],
            None => base,
        }
    }

    pub closed spec fn continuation_enabled(&self) -> bool {
        self.continuation_buses is Some
    }

    /// Takes fresh bus indices from `manager`: four, and two more for the
    /// Merkle and compression buses when continuations are enabled.
    pub fn new(manager: &mut BusIndexManager, continuation_enabled: bool) -> (r: Option<Self>)
        ensures
            r is Some <==> old(manager).next_index() + system_bus_count(continuation_enabled)
                <= usize::MAX,
            r is None ==> final(manager).next_index() == usize::MAX,
            r matches Some(s) ==> {
                &&& s.continuation_enabled() == continuation_enabled
                &&& s.buses() == Seq::new(
                    system_bus_count(continuation_enabled),
                    |i: int| (old(manager).next_index() + i) as usize,
                )
                &&& final(manager).next_index() == old(manager).next_index() + system_bus_count(
                    continuation_enabled,
                )
                &&& forall|i: int, j: int|
                    0 <= i < j < s.buses().len() ==> s.buses()[i] != s.buses()[j]
                &&& forall|i: int|
                    0 <= i < s.buses().len() ==> old(manager).next_index() <= #[trigger] s.buses()[i]
                        < final(manager).next_index()
            },
    {
        let ghost start = manager.next_index();
        let execution_bus = match manager.new_bus_idx() {
            Some(i) => i,
            None => {
                return None;
            },
        };
        let memory_bus = match manager.new_bus_idx() {
            Some(i) => i,
            None => {
                return None;
            },
        };
        let program_bus = match manager.new_bus_idx() {
            Some(i) => i,
            None => {
                return None;
            },
        };
        let range_checker_bus = match manager.new_bus_idx() {
            Some(i) => i,
            None => {
                return None;
            },
        };
        let continuation_buses = if continuation_enabled {
            let merkle_bus = match manager.new_bus_idx() {
                Some(i) => i,
                None => {
                    return None;
                },
            };
            let compression_bus = match manager.new_bus_idx() {
                Some(i) => i,
                None => {
                    return None;
                },
            };
            Some(ContinuationBuses { merkle_bus, compression_bus })
        } else {
            None
        };
        let r = SystemBase {
            execution_bus,
            memory_bus,
            program_bus,
            range_checker_bus,
            continuation_buses,
        };
        assert(r.buses() =~= Seq::new(
            system_bus_count(continuation_enabled),
            |i: int| (start + i) as usize,
        ));
        Some(r)
    }

    pub fn execution_bus(&self) -> (r: usize)
        ensures
            r == self.buses()[0],
    {
        self.execution_bus
    }

    pub fn memory_bus(&self) -> (r: usize)
        ensures
            r == self.buses()[1],
    {
        self.memory_bus
    }

    pub fn program_bus(&self) -> (r: usize)
        ensures
            r == self.buses()[2],
    {
        self.program_bus
    }

    pub fn range_checker_bus(&self) -> (r: usize)
        ensures
            r == self.buses()[3],
    {
        self.range_checker_bus
    }

    /// The bus of the memory Merkle tree, with continuations.
    pub fn merkle_bus(&self) -> (r: Option<usize>)
        ensures
            r is Some <==> self.continuation_enabled(),
            r matches Some(b) ==> b == self.buses()[4],
    {
        match self.continuation_buses {
            Some(c) => Some(c.merkle_bus),
            None => None,
        }
    }

    /// The bus of the compression function, with continuations.
    pub fn compression_bus(&self) -> (r: Option<usize>)
        ensures
            r is Some <==> self.continuation_enabled(),
            r matches Some(b) ==> b == self.buses()[5],
    {
        match self.continuation_buses {
            Some(c) => Some(c.compression_bus),
            None => None,
        }
    }
}

} // verus!
