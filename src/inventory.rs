use std::collections::BTreeMap;

use vstd::prelude::*;

verus! {

broadcast use vstd::std_specs::btree::group_btree_axioms, vstd::laws_cmp::group_laws_cmp;

/// Capability tag of a chip: an instruction executor or a periphery chip,
/// with its position among chips of that kind.
#[derive(Clone, Copy, Debug, PartialEq, Eq, Structural)]
pub enum ChipId {
    Executor(usize),
    Periphery(usize),
}

/// Why a chip could not be added.
#[derive(Clone, Copy, Debug, PartialEq, Eq, Structural)]
pub enum VmInventoryError {
    /// The opcode is already handled by the executor with this id.
    ExecutorExists { opcode: usize, id: usize },
}

/// The chips of a machine, kept in insertion order, with each opcode owned by
/// exactly one executor. Trace generation visits the chips in the reverse of
/// insertion order, so a chip is finished before the chips it depends on.
pub struct VmInventory<E, P> {
    instruction_lookup: BTreeMap<usize, usize>,
    /// The opcodes of `instruction_lookup`, in the order they were added.
    opcodes: Vec<usize>,
    executors: Vec<E>,
    periphery: Vec<P>,
    insertion_order: Vec<ChipId>,
}

/// The chip ids of `n_exec` executors and `n_periph` periphery chips, each once.
pub open spec fn ids_complete(order: Seq<ChipId>, n_exec: nat, n_periph: nat) -> bool {
    &&& order.len() == n_exec + n_periph
    &&& forall|k: int|
        0 <= k < order.len() ==> match #[trigger] order[k] {
            ChipId::Executor(i) => i < n_exec,
            ChipId::Periphery(i) => i < n_periph,
        }
    &&& forall|a: int, b: int| 0 <= a < b < order.len() ==> #[trigger] order[a] != #[trigger] order[b]
}

/// A chip id of an appended inventory, shifted past `ne` executors and `np`
/// periphery chips.
pub open spec fn shift_id(c: ChipId, ne: nat, np: nat) -> ChipId {
    match c {
        ChipId::Executor(i) => ChipId::Executor((i + ne) as usize),
        ChipId::Periphery(i) => ChipId::Periphery((i + np) as usize),
    }
}

proof fn lemma_shifted_ids(
    a: Seq<ChipId>,
    b: Seq<ChipId>,
    ne: nat,
    np: nat,
    ae: nat,
    ap: nat,
    be: nat,
    bp: nat,
)
    requires
        ids_complete(a, ae, ap),
        ids_complete(b, be, bp),
        ne == ae,
        np == ap,
        ae + be <= usize::MAX,
        ap + bp <= usize::MAX,
    ensures
        ids_complete(a + b.map_values(|c: ChipId| shift_id(c, ne, np)), ae + be, ap + bp),
{
    let s = a + b.map_values(|c: ChipId| shift_id(c, ne, np));
    assert forall|k: int| 0 <= k < s.len() implies match #[trigger] s[k] {
        ChipId::Executor(i) => i < ae + be,
        ChipId::Periphery(i) => i < ap + bp,
    } by {
        if k >= a.len() {
            assert(s[k] == shift_id(b[k - a.len()], ne, np));
            assert(match b[k - a.len()] {
                ChipId::Executor(i) => i < be,
                ChipId::Periphery(i) => i < bp,
            });
        } else {
            assert(s[k] == a[k]);
        }
    }
    assert forall|x: int, y: int| 0 <= x < y < s.len() implies #[trigger] s[x] != #[trigger] s[y] by {
        let n = a.len() as int;
        if y < n {
            assert(s[x] == a[x] && s[y] == a[y]);
        } else if x >= n {
            assert(s[x] == shift_id(b[x - n], ne, np));
            assert(s[y] == shift_id(b[y - n], ne, np));
            assert(b[x - n] != b[y - n]);
            assert(match b[x - n] {
                ChipId::Executor(i) => i < be,
                ChipId::Periphery(i) => i < bp,
            });
            assert(match b[y - n] {
                ChipId::Executor(i) => i < be,
                ChipId::Periphery(i) => i < bp,
            });
        } else {
            assert(s[x] == a[x]);
            assert(s[y] == shift_id(b[y - n], ne, np));
            assert(match a[x] {
                ChipId::Executor(i) => i < ae,
                ChipId::Periphery(i) => i < ap,
            });
        }
    }
}

impl<E, P> VmInventory<E, P> {
    /// Which executor handles each opcode.
    pub closed spec fn lookup(&self) -> Map<usize, usize> {
        self.instruction_lookup@
    }

    pub closed spec fn executors_view(&self) -> Seq<E> {
        self.executors@
    }

    pub closed spec fn periphery_view(&self) -> Seq<P> {
        self.periphery@
    }

    pub closed spec fn order(&self) -> Seq<ChipId> {
        self.insertion_order@
    }

    pub closed spec fn wf(&self) -> bool {
        &&& forall|op: usize| #[trigger]
            self.instruction_lookup@.contains_key(op) ==> self.instruction_lookup@[op]
                < self.executors@.len()
        &&& ids_complete(self.insertion_order@, self.executors@.len(), self.periphery@.len())
        &&& self.opcodes@.no_duplicates()
        &&& forall|op: usize| #[trigger]
            self.instruction_lookup@.contains_key(op) <==> self.opcodes@.contains(op)
    }

    pub fn new() -> (r: Self)
        ensures
            r.wf(),
            r.lookup() == Map::<usize, usize>::empty(),
            r.executors_view().len() == 0,
            r.periphery_view().len() == 0,
            r.order().len() == 0,
    {
        let r = VmInventory::<E, P> {
            instruction_lookup: BTreeMap::new(),
            opcodes: Vec::new(),
            executors: Vec::new(),
            periphery: Vec::new(),
            insertion_order: Vec::new(),
        };
        assert(r.opcodes@ =~= Seq::<usize>::empty());
        r
    }

    /// Adds an executor that handles `opcodes`; refused, with nothing changed,
    /// when another executor already owns one of them.
    pub fn add_executor(&mut self, executor: E, opcodes: Vec<usize>) -> (r: Result<
        (),
        VmInventoryError,
    >)
        requires
            old(self).wf(),
        ensures
            final(self).wf(),
            (exists|k: int|
                0 <= k < opcodes@.len() && old(self).lookup().contains_key(#[trigger] opcodes@[k]))
                <==> r is Err,
            r matches Err(VmInventoryError::ExecutorExists { opcode, id }) ==> {
                &&& old(self).lookup().contains_key(opcode)
                &&& old(self).lookup()[opcode] == id
                &&& opcodes@.contains(opcode)
            },
            r is Err ==> final(self).lookup() == old(self).lookup() && final(self).executors_view()
                == old(self).executors_view() && final(self).periphery_view()
                == old(self).periphery_view() && final(self).order() == old(self).order(),
            r is Ok ==> {
                let id = old(self).executors_view().len() as usize;
                &&& final(self).executors_view() == old(self).executors_view().push(executor)
                &&& final(self).periphery_view() == old(self).periphery_view()
                &&& final(self).order() == old(self).order().push(ChipId::Executor(id))
                &&& forall|op: usize|
                    #[trigger] final(self).lookup().contains_key(op) <==> (old(
                        self,
                    ).lookup().contains_key(op) || opcodes@.contains(op))
                &&& forall|op: usize|
                    #[trigger] final(self).lookup().contains_key(op) ==> final(self).lookup()[op]
                        == if opcodes@.contains(op) {
                        id
                    } else {
                        old(self).lookup()[op]
                    }
            },
    {
        let mut k: usize = 0;
        while k < opcodes.len()
            invariant
                k <= opcodes@.len(),
                *self == *old(self),
                self.wf(),
                forall|j: int| 0 <= j < k ==> !self.instruction_lookup@.contains_key(#[trigger] opcodes@[j]),
            decreases opcodes@.len() - k,
        {
            let op = opcodes[k];
            match self.instruction_lookup.get(&op) {
                Some(id) => {
                    let id = *id;
                    assert(opcodes@[k as int] == op);
                    return Err(VmInventoryError::ExecutorExists { opcode: op, id });
                },
                None => {},
            }
            k += 1;
        }
        let id = self.executors.len();
        proof {
            assert(ids_complete(self.insertion_order@, self.executors@.len(), self.periphery@.len()));
        }
        let ghost old_order = self.insertion_order@;
        let ghost old_lookup = self.instruction_lookup@;
        let ghost new_execs = self.executors@.push(executor);
        self.executors.push(executor);
        self.insertion_order.push(ChipId::Executor(id));
        proof {
            let o = self.insertion_order@;
            assert forall|a: int, b: int| 0 <= a < b < o.len() implies #[trigger] o[a] != #[trigger] o[b] by {
                if b == o.len() - 1 {
                    assert(o[a] == old_order[a]);
                    match o[a] {
                        ChipId::Executor(i) => assert(i < id),
                        ChipId::Periphery(_) => {},
                    }
                } else {
                    assert(o[a] == old_order[a] && o[b] == old_order[b]);
                }
            }
            assert forall|kk: int| 0 <= kk < o.len() implies match #[trigger] o[kk] {
                ChipId::Executor(i) => i < self.executors@.len(),
                ChipId::Periphery(i) => i < self.periphery@.len(),
            } by {
                if kk < o.len() - 1 {
                    assert(o[kk] == old_order[kk]);
                }
            }
        }
        let mut j: usize = 0;
        while j < opcodes.len()
            invariant
                j <= opcodes@.len(),
                id == self.executors@.len() - 1,
                id == old(self).executors@.len(),
                self.executors@ == new_execs,
                new_execs == old(self).executors@.push(executor),
                self.periphery@ == old(self).periphery@,
                self.insertion_order@ == old(self).insertion_order@.push(ChipId::Executor(id)),
                old_lookup == old(self).instruction_lookup@,
                ids_complete(self.insertion_order@, self.executors@.len(), self.periphery@.len()),
                forall|op: usize| #[trigger]
                    self.instruction_lookup@.contains_key(op) ==> self.instruction_lookup@[op]
                        < self.executors@.len(),
                forall|op: usize|
                    #[trigger] self.instruction_lookup@.contains_key(op) <==> (old_lookup.contains_key(op)
                        || opcodes@.take(j as int).contains(op)),
                forall|op: usize|
                    #[trigger] self.instruction_lookup@.contains_key(op) ==> self.instruction_lookup@[op]
                        == if opcodes@.take(j as int).contains(op) {
                        id
                    } else {
                        old_lookup[op]
                    },
                forall|jj: int| 0 <= jj < opcodes@.len() ==> !old_lookup.contains_key(#[trigger] opcodes@[jj]),
                self.opcodes@.no_duplicates(),
                forall|op: usize| #[trigger]
                    self.instruction_lookup@.contains_key(op) <==> self.opcodes@.contains(op),
            decreases opcodes@.len() - j,
        {
            let op = opcodes[j];
            let fresh = !self.instruction_lookup.contains_key(&op);
            let ghost before_ops = self.opcodes@;
            let ghost before_lookup = self.instruction_lookup@;
            self.instruction_lookup.insert(op, id);
            if fresh {
                self.opcodes.push(op);
                proof {
                    assert forall|a: int, b: int| 0 <= a < b < self.opcodes@.len() implies self.opcodes@[a]
                        != self.opcodes@[b] by {
                        if b == self.opcodes@.len() - 1 {
                            assert(before_ops.contains(before_ops[a]));
                        }
                    }
                }
            }
            proof {
                assert forall|o: usize| #[trigger]
                    self.instruction_lookup@.contains_key(o) <==> self.opcodes@.contains(o) by {
                    if o != op {
                        assert(before_lookup.contains_key(o) <==> before_ops.contains(o));
                        if self.opcodes@.contains(o) {
                            let w = choose|w: int| 0 <= w < self.opcodes@.len() && self.opcodes@[w] == o;
                            if fresh {
                                assert(w < before_ops.len());
                                assert(before_ops[w] == o);
                            }
                        }
                        if before_ops.contains(o) {
                            let w = choose|w: int| 0 <= w < before_ops.len() && before_ops[w] == o;
                            assert(self.opcodes@[w] == o);
                        }
                    } else {
                        if fresh {
                            assert(self.opcodes@[self.opcodes@.len() - 1] == op);
                        } else {
                            assert(before_ops.contains(op));
                            let w = choose|w: int| 0 <= w < before_ops.len() && before_ops[w] == op;
                            assert(self.opcodes@[w] == op);
                        }
                    }
                }
            }
            proof {
                let t0 = opcodes@.take(j as int);
                let t1 = opcodes@.take(j + 1);
                assert(t1 =~= t0.push(op));
                assert forall|o: usize| t1.contains(o) <==> (t0.contains(o) || o == op) by {
                    if t1.contains(o) {
                        let w = choose|w: int| 0 <= w < t1.len() && t1[w] == o;
                        if w < t0.len() {
                            assert(t0[w] == o);
                        }
                    }
                    if t0.contains(o) {
                        let w = choose|w: int| 0 <= w < t0.len() && t0[w] == o;
                        assert(t1[w] == o);
                    }
                    if o == op {
                        assert(t1[j as int] == o);
                    }
                }
            }
            j += 1;
        }
        proof {
            assert(opcodes@.take(opcodes@.len() as int) =~= opcodes@);
        }
        Ok(())
    }

    /// Appends the chips of `other` after the chips of `self`, shifting their
    /// ids; refused, with nothing changed, when `other` handles an opcode that
    /// `self` already handles.
    pub fn append(&mut self, mut other: VmInventory<E, P>) -> (r: Result<(), VmInventoryError>)
        requires
            old(self).wf(),
            other.wf(),
            old(self).order().len() + other.order().len() <= usize::MAX,
        ensures
            final(self).wf(),
            (exists|op: usize| old(self).lookup().contains_key(op) && #[trigger] other.lookup().contains_key(op))
                <==> r is Err,
            r matches Err(VmInventoryError::ExecutorExists { opcode, id }) ==> {
                &&& old(self).lookup().contains_key(opcode)
                &&& other.lookup().contains_key(opcode)
                &&& old(self).lookup()[opcode] == id
            },
            r is Err ==> final(self).lookup() == old(self).lookup() && final(self).executors_view()
                == old(self).executors_view() && final(self).periphery_view()
                == old(self).periphery_view() && final(self).order() == old(self).order(),
            r is Ok ==> {
                let ne = old(self).executors_view().len();
                let np = old(self).periphery_view().len();
                &&& final(self).executors_view() == old(self).executors_view() + other.executors_view()
                &&& final(self).periphery_view() == old(self).periphery_view() + other.periphery_view()
                &&& final(self).order() == old(self).order() + other.order().map_values(
                    |c: ChipId| shift_id(c, ne, np),
                )
                &&& forall|op: usize|
                    #[trigger] final(self).lookup().contains_key(op) <==> (old(
                        self,
                    ).lookup().contains_key(op) || other.lookup().contains_key(op))
                &&& forall|op: usize|
                    #[trigger] final(self).lookup().contains_key(op) ==> final(self).lookup()[op]
                        == if other.lookup().contains_key(op) {
                        other.lookup()[op] + ne
                    } else {
                        old(self).lookup()[op] as int
                    }
            },
    {
        let ghost o_exec = other.executors@;
        let ghost o_per = other.periphery@;
        let ghost o_ops = other.opcodes@;
        let ghost o_lookup = other.instruction_lookup@;
        let ghost o_order = other.insertion_order@;
        let mut k: usize = 0;
        while k < other.opcodes.len()
            invariant
                k <= other.opcodes@.len(),
                *self == *old(self),
                other.executors@ == o_exec && other.periphery@ == o_per && other.opcodes@ == o_ops
                    && other.instruction_lookup@ == o_lookup && other.insertion_order@ == o_order,
                self.wf(),
                other.wf(),
                forall|j: int| 0 <= j < k ==> !self.instruction_lookup@.contains_key(#[trigger] other.opcodes@[j]),
            decreases other.opcodes@.len() - k,
        {
            let op = other.opcodes[k];
            match self.instruction_lookup.get(&op) {
                Some(id) => {
                    let id = *id;
                    assert(other.opcodes@[k as int] == op);
                    assert(other.opcodes@.contains(op));
                    assert(other.instruction_lookup@.contains_key(op));
                    assert(old(self).lookup().contains_key(op) && other.lookup().contains_key(op));
                    return Err(VmInventoryError::ExecutorExists { opcode: op, id });
                },
                None => {},
            }
            k += 1;
        }
        proof {
            assert forall|op: usize| !(old(self).lookup().contains_key(op) && #[trigger] other.lookup().contains_key(op)) by {
                if other.lookup().contains_key(op) {
                    assert(other.opcodes@.contains(op));
                    let w = choose|w: int| 0 <= w < other.opcodes@.len() && other.opcodes@[w] == op;
                    assert(!self.instruction_lookup@.contains_key(other.opcodes@[w]));
                }
            }
            assert(ids_complete(self.insertion_order@, self.executors@.len(), self.periphery@.len()));
            assert(ids_complete(other.insertion_order@, other.executors@.len(), other.periphery@.len()));
        }
        let ne = self.executors.len();
        let np = self.periphery.len();
        let ghost old_lookup = self.instruction_lookup@;
        let ghost old_ops = self.opcodes@;
        let mut j: usize = 0;
        while j < other.opcodes.len()
            invariant
                j <= other.opcodes@.len(),
                other.wf(),
                other.executors@ == o_exec && other.periphery@ == o_per && other.opcodes@ == o_ops
                    && other.instruction_lookup@ == o_lookup && other.insertion_order@ == o_order,
                ne == old(self).executors@.len(),
                self.executors@ == old(self).executors@,
                self.periphery@ == old(self).periphery@,
                self.insertion_order@ == old(self).insertion_order@,
                old_lookup == old(self).instruction_lookup@,
                old_ops == old(self).opcodes@,
                old(self).wf(),
                ne + other.executors@.len() <= usize::MAX,
                forall|op: usize| !(old_lookup.contains_key(op) && #[trigger] other.instruction_lookup@.contains_key(op)),
                self.opcodes@ == old_ops + other.opcodes@.take(j as int),
                forall|op: usize|
                    #[trigger] self.instruction_lookup@.contains_key(op) <==> (old_lookup.contains_key(op)
                        || other.opcodes@.take(j as int).contains(op)),
                forall|op: usize|
                    #[trigger] self.instruction_lookup@.contains_key(op) ==> self.instruction_lookup@[op]
                        == if other.opcodes@.take(j as int).contains(op) {
                        other.instruction_lookup@[op] + ne
                    } else {
                        old_lookup[op] as int
                    },
            decreases other.opcodes@.len() - j,
        {
            let op = other.opcodes[j];
            proof {
                assert(other.opcodes@.contains(op));
            }
            let id = match other.instruction_lookup.get(&op) {
                Some(id) => *id,
                None => {
                    assert(false);
                    0
                },
            };
            self.instruction_lookup.insert(op, id + ne);
            self.opcodes.push(op);
            proof {
                let t0 = other.opcodes@.take(j as int);
                let t1 = other.opcodes@.take(j + 1);
                assert(t1 =~= t0.push(op));
                assert(self.opcodes@ =~= old_ops + t1);
                assert forall|o: usize| t1.contains(o) <==> (t0.contains(o) || o == op) by {
                    if t1.contains(o) {
                        let w = choose|w: int| 0 <= w < t1.len() && t1[w] == o;
                        if w < t0.len() {
                            assert(t0[w] == o);
                        }
                    }
                    if t0.contains(o) {
                        let w = choose|w: int| 0 <= w < t0.len() && t0[w] == o;
                        assert(t1[w] == o);
                    }
                    if o == op {
                        assert(t1[j as int] == o);
                    }
                }
            }
            j += 1;
        }
        let ghost old_order = self.insertion_order@;
        let ghost other_order = other.insertion_order@;
        let ghost lookup_after = self.instruction_lookup@;
        proof {
            assert(other.opcodes@.take(other.opcodes@.len() as int) =~= other.opcodes@);
        }
        let mut q: usize = 0;
        while q < other.insertion_order.len()
            invariant
                q <= other_order.len(),
                other_order == other.insertion_order@,
                other.executors@ == o_exec && other.periphery@ == o_per && other.opcodes@ == o_ops
                    && other.instruction_lookup@ == o_lookup && other.insertion_order@ == o_order,
                self.opcodes@ == old_ops + o_ops,
                self.instruction_lookup@ == lookup_after,
                self.executors@ == old(self).executors@,
                self.periphery@ == old(self).periphery@,
                old_order == old(self).insertion_order@,
                ne == old(self).executors@.len(),
                np == old(self).periphery@.len(),
                self.insertion_order@ == old_order + other_order.take(q as int).map_values(
                    |c: ChipId| shift_id(c, ne as nat, np as nat),
                ),
                ids_complete(other_order, other.executors@.len(), other.periphery@.len()),
                ne + other.executors@.len() <= usize::MAX,
                np + other.periphery@.len() <= usize::MAX,
            decreases other_order.len() - q,
        {
            let c = match other.insertion_order[q] {
                ChipId::Executor(i) => ChipId::Executor(i + ne),
                ChipId::Periphery(i) => ChipId::Periphery(i + np),
            };
            self.insertion_order.push(c);
            proof {
                assert(other_order.take(q + 1) =~= other_order.take(q as int).push(other_order[q as int]));
                assert(self.insertion_order@ =~= old_order + other_order.take(q + 1).map_values(
                    |c: ChipId| shift_id(c, ne as nat, np as nat),
                ));
            }
            q += 1;
        }
        self.executors.append(&mut other.executors);
        self.periphery.append(&mut other.periphery);
        proof {
            assert(o_ops.take(o_ops.len() as int) =~= o_ops);
            assert(self.opcodes@ =~= old_ops + o_ops);
            assert(other_order.take(other_order.len() as int) =~= other_order);
            lemma_shifted_ids(old_order, other_order, ne as nat, np as nat, old(self).executors@.len(), old(self).periphery@.len(), o_exec.len(), o_per.len());
            assert forall|a: int, b: int| 0 <= a < b < self.opcodes@.len() implies self.opcodes@[a]
                != self.opcodes@[b] by {
                let n0 = old_ops.len() as int;
                if b < n0 {
                } else if a >= n0 {
                    assert(self.opcodes@[a] == o_ops[a - n0]);
                    assert(self.opcodes@[b] == o_ops[b - n0]);
                } else {
                    let o = self.opcodes@[b];
                    assert(o == o_ops[b - n0]);
                    assert(o_ops.contains(o));
                    assert(o_lookup.contains_key(o));
                    assert(old_ops.contains(self.opcodes@[a]));
                }
            }
            assert forall|op: usize| #[trigger] self.instruction_lookup@.contains_key(op) <==> self.opcodes@.contains(op) by {
                if self.opcodes@.contains(op) {
                    let w = choose|w: int| 0 <= w < self.opcodes@.len() && self.opcodes@[w] == op;
                    if w < old_ops.len() {
                        assert(old_ops[w] == op);
                        assert(old_ops.contains(op));
                    } else {
                        assert(o_ops[w - old_ops.len()] == op);
                        assert(o_ops.contains(op));
                    }
                }
                if old_ops.contains(op) {
                    let w = choose|w: int| 0 <= w < old_ops.len() && old_ops[w] == op;
                    assert(self.opcodes@[w] == op);
                }
                if o_ops.contains(op) {
                    let w = choose|w: int| 0 <= w < o_ops.len() && o_ops[w] == op;
                    assert(self.opcodes@[old_ops.len() + w] == op);
                }
            }
            assert forall|op: usize| #[trigger] self.instruction_lookup@.contains_key(op) implies self.instruction_lookup@[op]
                < self.executors@.len() by {
                if o_ops.contains(op) {
                    assert(o_lookup.contains_key(op));
                } else {
                    assert(old_lookup.contains_key(op));
                }
            }
        }
        Ok(())
    }

    /// Adds a chip that executes no instruction.
    pub fn add_periphery_chip(&mut self, periphery_chip: P)
        requires
            old(self).wf(),
        ensures
            final(self).wf(),
            final(self).lookup() == old(self).lookup(),
            final(self).executors_view() == old(self).executors_view(),
            final(self).periphery_view() == old(self).periphery_view().push(periphery_chip),
            final(self).order() == old(self).order().push(
                ChipId::Periphery(old(self).periphery_view().len() as usize),
            ),
    {
        let id = self.periphery.len();
        proof {
            assert(ids_complete(self.insertion_order@, self.executors@.len(), self.periphery@.len()));
        }
        let ghost old_order = self.insertion_order@;
        self.periphery.push(periphery_chip);
        self.insertion_order.push(ChipId::Periphery(id));
        proof {
            let o = self.insertion_order@;
            assert forall|a: int, b: int| 0 <= a < b < o.len() implies #[trigger] o[a] != #[trigger] o[b] by {
                if b == o.len() - 1 {
                    assert(o[a] == old_order[a]);
                    match o[a] {
                        ChipId::Periphery(i) => assert(i < id),
                        ChipId::Executor(_) => {},
                    }
                } else {
                    assert(o[a] == old_order[a] && o[b] == old_order[b]);
                }
            }
            assert forall|kk: int| 0 <= kk < o.len() implies match #[trigger] o[kk] {
                ChipId::Executor(i) => i < self.executors@.len(),
                ChipId::Periphery(i) => i < self.periphery@.len(),
            } by {
                if kk < o.len() - 1 {
                    assert(o[kk] == old_order[kk]);
                }
            }
        }
    }

    /// The executor that handles `opcode`.
    pub fn get_executor(&self, opcode: usize) -> (r: Option<&E>)
        requires
            self.wf(),
        ensures
            r is Some <==> self.lookup().contains_key(opcode),
            r matches Some(e) ==> *e == self.executors_view()[self.lookup()[opcode] as int],
    {
        match self.instruction_lookup.get(&opcode) {
            Some(id) => Some(&self.executors[*id]),
            None => None,
        }
    }

    pub fn executors(&self) -> (r: &Vec<E>)
        ensures
            r@ == self.executors_view(),
    {
        &self.executors
    }

    pub fn periphery(&self) -> (r: &Vec<P>)
        ensures
            r@ == self.periphery_view(),
    {
        &self.periphery
    }

    pub fn num_airs(&self) -> (r: usize)
        requires
            self.wf(),
        ensures
            r == self.executors_view().len() + self.periphery_view().len(),
    {
        proof {
            assert(ids_complete(self.insertion_order@, self.executors@.len(), self.periphery@.len()));
        }
        self.insertion_order.len()
    }

    /// The chips in insertion order.
    pub fn insertion_order(&self) -> (r: &Vec<ChipId>)
        ensures
            r@ == self.order(),
    {
        &self.insertion_order
    }

    /// The order in which chips generate their traces: the reverse of
    /// insertion order.
    pub fn trace_generation_order(&self) -> (r: Vec<ChipId>)
        ensures
            r@ == self.order().reverse(),
    {
        let n = self.insertion_order.len();
        let mut out: Vec<ChipId> = Vec::with_capacity(n);
        let mut k: usize = n;
        while k > 0
            invariant
                k <= n,
                n == self.insertion_order@.len(),
                out@.len() == n - k,
                forall|j: int| 0 <= j < n - k ==> #[trigger] out@[j] == self.insertion_order@[n - 1 - j],
            decreases k,
        {
            k -= 1;
            out.push(self.insertion_order[k]);
        }
        assert(out@ =~= self.order().reverse());
        out
    }
}

/// A position in the machine's AIR order.
#[derive(Clone, Copy, Debug, PartialEq, Eq, Structural)]
pub enum AirSlot {
    Program,
    Connector,
    PublicValues,
    Memory(usize),
    Chip(ChipId),
    RangeChecker,
}

/// The slot of inventory chip `c`: none for executor 0 when it is the public
/// values chip, which has a slot of its own.
pub open spec fn chip_slot(c: ChipId, has_pv: bool) -> Seq<AirSlot> {
    if has_pv && c == ChipId::Executor(0) {
        Seq::empty()
    } else {
        seq![AirSlot::Chip(c)]
    }
}

/// The slots of the chips of `s`, last chip first.
pub open spec fn reversed_chip_slots(s: Seq<ChipId>, has_pv: bool) -> Seq<AirSlot>
    decreases s.len(),
{
    if s.len() == 0 {
        Seq::empty()
    } else {
        reversed_chip_slots(s.drop_first(), has_pv) + chip_slot(s[0], has_pv)
    }
}

/// The AIR order of a machine: program, connector, public values when present,
/// the memory AIRs, the inventory chips in reverse insertion order, and the
/// range checker last, after every chip that sends it range checks.
pub open spec fn air_layout(order: Seq<ChipId>, has_pv: bool, n_memory: nat) -> Seq<AirSlot> {
    seq![AirSlot::Program, AirSlot::Connector] + (if has_pv {
        seq![AirSlot::PublicValues]
    } else {
        Seq::empty()
    }) + Seq::new(n_memory, |i: int| AirSlot::Memory(i as usize)) + reversed_chip_slots(
        order,
        has_pv,
    ) + seq![AirSlot::RangeChecker]
}

/// The AIR order of a machine whose inventory is `inv`, with `n_memory`
/// memory AIRs; `has_pv` says that executor 0 is the public values chip.
/// Traces are generated in this order, so the range checker's table is built
/// last.
pub fn air_order<E, P>(inv: &VmInventory<E, P>, has_pv: bool, n_memory: usize) -> (r: Vec<AirSlot>)
    requires
        inv.wf(),
        has_pv ==> inv.order().contains(ChipId::Executor(0)),
    ensures
        r@ == air_layout(inv.order(), has_pv, n_memory as nat),
        r@.last() == AirSlot::RangeChecker,
{
    let order = inv.insertion_order();
    let mut out: Vec<AirSlot> = Vec::new();
    out.push(AirSlot::Program);
    out.push(AirSlot::Connector);
    if has_pv {
        out.push(AirSlot::PublicValues);
    }
    let ghost head = out@;
    let mut m: usize = 0;
    while m < n_memory
        invariant
            m <= n_memory,
            out@ == head + Seq::new(m as nat, |i: int| AirSlot::Memory(i as usize)),
        decreases n_memory - m,
    {
        out.push(AirSlot::Memory(m));
        m += 1;
        assert(out@ =~= head + Seq::new(m as nat, |i: int| AirSlot::Memory(i as usize)));
    }
    let ghost mid = out@;
    let n = order.len();
    let mut k: usize = n;
    proof {
        assert(order@.subrange(n as int, n as int) =~= Seq::<ChipId>::empty());
        assert(out@ =~= mid + reversed_chip_slots(order@.subrange(k as int, n as int), has_pv));
    }
    while k > 0
        invariant
            k <= n,
            n == order@.len(),
            out@ == mid + reversed_chip_slots(order@.subrange(k as int, n as int), has_pv),
        decreases k,
    {
        k -= 1;
        let c = order[k];
        let skip = has_pv && c == ChipId::Executor(0);
        if !skip {
            out.push(AirSlot::Chip(c));
        }
        proof {
            let sub = order@.subrange(k as int, n as int);
            assert(sub.drop_first() =~= order@.subrange(k + 1, n as int));
            assert(sub[0] == c);
            assert(out@ =~= mid + reversed_chip_slots(sub, has_pv));
        }
    }
    out.push(AirSlot::RangeChecker);
    proof {
        assert(order@.subrange(0, n as int) =~= order@);
        assert(out@ =~= air_layout(inv.order(), has_pv, n_memory as nat));
    }
    out
}

} // verus!
