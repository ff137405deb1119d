use vstd::arithmetic::power2::pow2;
use vstd::prelude::*;

use crate::boundary::{
    boundary_of, boundary_table, lemma_boundary_values, row_cell, BoundaryRow,
};
use crate::controller::{
    access_outcome, cell_of, log_consistent, log_view, AccessRecord, MemoryController,
};
use crate::is_less_than_tuple::ComparatorError;
use crate::memory::{MemoryError, MemoryImage};
use crate::merkle::{
    digest, leaf_cell, leaf_of, leaf_words_bits, memory_digest, tree_config_ok, DIGEST_WIDTH,
};
use crate::offline_checker::{
    is_rearrangement, keys_in_bounds, lemma_last_value_untouched, sorted_by_key, view_consistent,
    MemoryOfflineChecker, OfflineCheckError, OfflineCheckerTrace,
};
use crate::assert_sorted::order_requests;
use crate::range_checker::{
    count_index, counters_have_room, request_count, valid_check, RangeCheckError,
    VariableRangeCheckerBus, VariableRangeCheckerChip, VariableRangeCols, MAX_RANGE_MAX_BITS,
};

verus! {

/// Why a segment could not be built or finished.
#[derive(Clone, Copy, Debug, PartialEq, Eq, Structural)]
pub enum SegmentError {
    Memory(MemoryError),
    Comparator(ComparatorError),
    Offline(OfflineCheckError),
    /// The lookup table's ceiling is above what the table can hold.
    RangeBitsTooLarge,
    /// The claimed initial digest is not the digest of the given memory.
    DigestMismatch,
}

/// One segment of execution: the memory controller, the memory it started
/// from, and the lookup table and offline checker that prove its accesses.
pub struct ExecutionSegment {
    memory_controller: MemoryController,
    initial_memory: MemoryImage,
    range_checker: VariableRangeCheckerChip,
    offline_checker: MemoryOfflineChecker,
}

/// What a finished segment hands to proof assembly and to the next segment.
pub struct SegmentResult {
    pub log: Vec<AccessRecord>,
    pub trace: OfflineCheckerTrace,
    /// One row per accessed cell: its word at the start and at the end.
    pub boundary: Vec<BoundaryRow>,
    /// The lookup table's counters, frozen after every other chip finished.
    pub range_counts: Vec<u32>,
    /// The lookup table's trace rows, built from the frozen counters.
    pub range_trace: Vec<VariableRangeCols>,
    /// The range checks the frozen counters account for.
    pub range_requests: Ghost<Seq<(u32, usize)>>,
    pub initial_memory: MemoryImage,
    pub final_memory: MemoryImage,
    /// Digests of the initial and final memory, where the memory tree can be
    /// built for the configuration.
    pub initial_digest: Option<[u32; 8]>,
    pub final_digest: Option<[u32; 8]>,
    pub end_timestamp: u64,
}

pub open spec fn digest_outcome(image: MemoryImage, d: Option<[u32; 8]>) -> bool {
    &&& d is Some <==> tree_config_ok(image.config())
    &&& d matches Some(x) ==> x@ == memory_digest(image.image(), image.config())
}

impl ExecutionSegment {
    pub closed spec fn controller(&self) -> MemoryController {
        self.memory_controller
    }

    pub closed spec fn lookup(&self) -> VariableRangeCheckerChip {
        self.range_checker
    }

    pub closed spec fn initial(&self) -> MemoryImage {
        self.initial_memory
    }

    pub closed spec fn wf(&self) -> bool {
        &&& self.memory_controller.wf()
        &&& self.initial_memory.wf()
        &&& self.memory_controller.initial_image() == self.initial_memory.image()
        &&& self.memory_controller.config() == self.initial_memory.config()
        &&& self.range_checker.wf()
        &&& self.offline_checker.wf()
        &&& self.range_checker.spec_bus()
            == self.offline_checker.sorted_air.is_less_than_tuple_air.bus
        &&& self.offline_checker.limb_bits() == seq![
            self.memory_controller.config().clk_max_bits,
            self.memory_controller.config().pointer_max_bits,
            self.memory_controller.config().as_max_bits,
        ]
    }

    /// What a well-formed segment states about its parts.
    pub proof fn lemma_wf(&self)
        requires
            self.wf(),
        ensures
            self.controller().wf(),
            self.lookup().wf(),
            self.initial().wf(),
            self.controller().initial_image() == self.initial().image(),
            self.controller().config() == self.initial().config(),
    {
    }

    /// A segment starting from `initial_memory` at `start_timestamp`, whose
    /// range checks go to a fresh lookup table on `range_bus`.
    pub fn new(
        initial_memory: MemoryImage,
        start_timestamp: u64,
        range_bus: VariableRangeCheckerBus,
    ) -> (r: Result<Self, SegmentError>)
        requires
            initial_memory.wf(),
        ensures
            range_bus.range_max_bits > MAX_RANGE_MAX_BITS ==> r == Err::<Self, _>(
                SegmentError::RangeBitsTooLarge,
            ),
            r is Ok <==> (range_bus.range_max_bits <= MAX_RANGE_MAX_BITS && {
                let c = initial_memory.config();
                &&& c.clk_max_bits <= range_bus.range_max_bits
                &&& c.pointer_max_bits <= range_bus.range_max_bits
                &&& c.as_max_bits <= range_bus.range_max_bits
                &&& start_timestamp <= pow2(c.clk_max_bits as nat)
            }),
            r matches Ok(s) ==> {
                &&& s.wf()
                &&& s.initial() == initial_memory
                &&& s.controller().initial_image() == initial_memory.image()
                &&& s.controller().config() == initial_memory.config()
                &&& s.controller().start() == start_timestamp
                &&& s.controller().current_timestamp() == start_timestamp
                &&& s.controller().log().len() == 0
                &&& s.lookup().requests().len() == 0
                &&& s.lookup().spec_bus() == range_bus
            },
    {
        if range_bus.range_max_bits > MAX_RANGE_MAX_BITS {
            return Err(SegmentError::RangeBitsTooLarge);
        }
        let config = initial_memory.get_config();
        let offline_checker = match MemoryOfflineChecker::new(range_bus, config) {
            Ok(c) => c,
            Err(e) => {
                return Err(SegmentError::Comparator(e));
            },
        };
        let copy = initial_memory.duplicate();
        let memory_controller = match MemoryController::with_initial_memory(copy, start_timestamp) {
            Ok(c) => c,
            Err(e) => {
                return Err(SegmentError::Memory(e));
            },
        };
        let range_checker = VariableRangeCheckerChip::new(range_bus);
        Ok(ExecutionSegment { memory_controller, initial_memory, range_checker, offline_checker })
    }

    /// The next segment of a continued run: it starts from the previous
    /// segment's final memory, which must match the digest the segment claims
    /// to start from.
    pub fn continue_from(
        previous_final: MemoryImage,
        claimed_initial_digest: &[u32; 8],
        start_timestamp: u64,
        range_bus: VariableRangeCheckerBus,
    ) -> (r: Result<Self, SegmentError>)
        requires
            previous_final.wf(),
        ensures
            !tree_config_ok(previous_final.config()) ==> r == Err::<Self, _>(
                SegmentError::Memory(MemoryError::InvalidConfig),
            ),
            tree_config_ok(previous_final.config()) && memory_digest(
                previous_final.image(),
                previous_final.config(),
            ) != claimed_initial_digest@ ==> r == Err::<Self, _>(SegmentError::DigestMismatch),
            tree_config_ok(previous_final.config()) && memory_digest(
                previous_final.image(),
                previous_final.config(),
            ) == claimed_initial_digest@ ==> (r is Ok <==> (range_bus.range_max_bits
                <= MAX_RANGE_MAX_BITS && {
                let c = previous_final.config();
                &&& c.clk_max_bits <= range_bus.range_max_bits
                &&& c.pointer_max_bits <= range_bus.range_max_bits
                &&& c.as_max_bits <= range_bus.range_max_bits
                &&& start_timestamp <= pow2(c.clk_max_bits as nat)
            })),
            r matches Ok(s) ==> {
                &&& s.wf()
                &&& memory_digest(previous_final.image(), previous_final.config())
                    == claimed_initial_digest@
                &&& s.initial() == previous_final
                &&& s.controller().initial_image() == previous_final.image()
                &&& s.controller().config() == previous_final.config()
                &&& s.controller().start() == start_timestamp
                &&& s.controller().current_timestamp() == start_timestamp
                &&& s.controller().log().len() == 0
                &&& s.lookup().requests().len() == 0
                &&& s.lookup().spec_bus() == range_bus
            },
    {
        let d = match digest(&previous_final) {
            Ok(d) => d,
            Err(e) => {
                return Err(SegmentError::Memory(e));
            },
        };
        let mut i: usize = 0;
        while i < DIGEST_WIDTH
            invariant
                i <= 8,
                tree_config_ok(previous_final.config()),
                d@ == memory_digest(previous_final.image(), previous_final.config()),
                d@.len() == 8,
                claimed_initial_digest@.len() == 8,
                forall|j: int| 0 <= j < i ==> d@[j] == claimed_initial_digest@[j],
            decreases 8 - i,
        {
            if d[i] != claimed_initial_digest[i] {
                assert(d@[i as int] != claimed_initial_digest@[i as int]);
                return Err(SegmentError::DigestMismatch);
            }
            i += 1;
        }
        assert(d@ =~= claimed_initial_digest@);
        Self::new(previous_final, start_timestamp, range_bus)
    }

    pub fn memory_controller(&self) -> (r: &MemoryController)
        ensures
            *r == self.controller(),
    {
        &self.memory_controller
    }

    pub fn read(&mut self, address_space: u32, pointer: u32) -> (r: Result<
        AccessRecord,
        MemoryError,
    >)
        requires
            old(self).wf(),
        ensures
            final(self).wf(),
            final(self).lookup() == old(self).lookup(),
            final(self).initial() == old(self).initial(),
            access_outcome(
                old(self).controller(),
                final(self).controller(),
                address_space,
                pointer,
                None,
                r,
            ),
    {
        self.memory_controller.read(address_space, pointer)
    }

    pub fn write(&mut self, address_space: u32, pointer: u32, data: Vec<u32>) -> (r: Result<
        AccessRecord,
        MemoryError,
    >)
        requires
            old(self).wf(),
        ensures
            final(self).wf(),
            final(self).lookup() == old(self).lookup(),
            final(self).initial() == old(self).initial(),
            access_outcome(
                old(self).controller(),
                final(self).controller(),
                address_space,
                pointer,
                Some(data@),
                r,
            ),
    {
        self.memory_controller.write(address_space, pointer, data)
    }

    /// Requests a range check from the segment's shared lookup table.
    pub fn request_range_check(&mut self, value: u32, bits: usize) -> (r: Result<
        (),
        RangeCheckError,
    >)
        requires
            old(self).wf(),
        ensures
            final(self).wf(),
            final(self).controller() == old(self).controller(),
            final(self).initial() == old(self).initial(),
            final(self).lookup().spec_bus() == old(self).lookup().spec_bus(),
            bits > old(self).lookup().max_bits() ==> r == Err::<(), _>(RangeCheckError::BitsExceeded),
            bits <= old(self).lookup().max_bits() && value >= pow2(bits as nat) ==> r == Err::<(), _>(
                RangeCheckError::ValueOutOfRange,
            ),
            valid_check(value as int, bits as nat, old(self).lookup().max_bits()) ==> {
                let idx = count_index(value as int, bits as nat);
                &&& old(self).lookup().counts()[idx] == u32::MAX ==> r == Err::<(), _>(
                    RangeCheckError::CountOverflow,
                )
                &&& old(self).lookup().counts()[idx] < u32::MAX ==> r is Ok
            },
            r is Ok ==> {
                let idx = count_index(value as int, bits as nat);
                &&& final(self).lookup().counts() == old(self).lookup().counts().update(
                    idx,
                    (old(self).lookup().counts()[idx] + 1) as u32,
                )
                &&& final(self).lookup().requests() == old(self).lookup().requests().push(
                    (value, bits),
                )
            },
            r is Err ==> final(self).lookup().counts() == old(self).lookup().counts()
                && final(self).lookup().requests() == old(self).lookup().requests(),
    {
        self.range_checker.add_count(value, bits)
    }

    /// Finishes the segment in the one order the chips allow: the controller
    /// hands over its log and final memory, then the offline check runs (and
    /// adds its range checks), and only then is the lookup table frozen.
    pub fn finalize(self) -> (r: Result<SegmentResult, SegmentError>)
        requires
            self.wf(),
        ensures
            r is Err ==> r matches Err(SegmentError::Offline(OfflineCheckError::RangeCheck(_))),
            counters_have_room(self.lookup().counts(), self.controller().log().len() as int) ==> r is Ok,
            r matches Ok(res) ==> {
                let c = self.controller();
                let sv = log_view(res.trace.sorted@);
                &&& log_view(res.log@) == c.log()
                &&& res.final_memory.wf()
                &&& res.final_memory == c.memory()
                &&& res.initial_memory == self.initial()
                &&& sorted_by_key(sv)
                &&& is_rearrangement(c.log(), sv)
                &&& view_consistent(c.initial_image(), c.word_size(), sv)
                &&& boundary_of(sv, res.boundary@)
                &&& forall|j: int|
                    0 <= j < res.boundary@.len() ==> {
                        let row = #[trigger] res.boundary@[j];
                        &&& row.initial_data@ == res.initial_memory.value(row_cell(row))
                        &&& row.final_data@ == res.final_memory.value(row_cell(row))
                    }
                &&& res.range_requests@ == self.lookup().requests() + order_requests(
                    seq![c.config().clk_max_bits, c.config().pointer_max_bits, c.config().as_max_bits],
                    res.trace.order_rows@,
                )
                &&& res.range_counts@.len() == self.lookup().counts().len()
                &&& forall|i: int|
                    0 <= i < res.range_counts@.len() ==> #[trigger] res.range_counts@[i]
                        == request_count(res.range_requests@, i)
                &&& res.range_trace@.len() == res.range_counts@.len()
                &&& res.range_trace@[0] == (VariableRangeCols {
                    value: 0,
                    max_bits: 0,
                    mult: res.range_counts@[0],
                })
                &&& forall|b: nat, v: int|
                    b <= self.lookup().max_bits() && 0 <= v < pow2(b) ==> res.range_trace@[
                    #[trigger] count_index(v, b)] == (VariableRangeCols {
                        value: v as u32,
                        max_bits: b as u32,
                        mult: res.range_counts@[count_index(v, b)],
                    })
                &&& digest_outcome(res.initial_memory, res.initial_digest)
                &&& digest_outcome(res.final_memory, res.final_digest)
                &&& res.end_timestamp == c.current_timestamp()
            },
    {
        let ExecutionSegment {
            memory_controller,
            initial_memory,
            mut range_checker,
            offline_checker,
        } = self;
        let ghost c = memory_controller;
        let end_timestamp = memory_controller.timestamp();
        proof {
            memory_controller.lemma_log_facts();
        }
        let (log, final_memory) = memory_controller.finalize();
        proof {
            let lv = log_view(log@);
            let cfg = c.config();
            assert(initial_memory.word_size() == c.word_size());
            assert(log_consistent(initial_memory.image(), initial_memory.word_size(), c.start(), lv));
            let bits = offline_checker.limb_bits();
            assert(bits[0] == cfg.clk_max_bits && bits[1] == cfg.pointer_max_bits && bits[2] == cfg.as_max_bits);
            assert forall|i: int| 0 <= i < lv.len() implies {
                &&& (#[trigger] lv[i]).timestamp < pow2(bits[0] as nat)
                &&& lv[i].pointer < pow2(bits[1] as nat)
                &&& lv[i].address_space < pow2(bits[2] as nat)
            } by {
                assert(lv[i] == c.log()[i]);
            }
            assert(keys_in_bounds(lv, bits));
        }
        let trace = match offline_checker.generate_trace(&log, &initial_memory, &mut range_checker) {
            Ok(t) => t,
            Err(e) => {
                return Err(SegmentError::Offline(e));
            },
        };
        let boundary = boundary_table(&trace.sorted);
        proof {
            let sv = log_view(trace.sorted@);
            assert forall|j: int| 0 <= j < boundary@.len() implies {
                let row = #[trigger] boundary@[j];
                &&& row.initial_data@ == initial_memory.value(row_cell(row))
                &&& row.final_data@ == final_memory.value(row_cell(row))
            } by {
                let row = boundary@[j];
                let cell = row_cell(row);
                assert(crate::boundary::row_matches(sv, row));
                assert(c.value(cell) == crate::controller::last_value(
                    c.initial_image(),
                    c.word_size(),
                    c.log(),
                    cell,
                ));
                assert(final_memory.value(cell) == c.value(cell));
                assert(initial_memory.word_size() == c.word_size());
                lemma_boundary_values(
                    c.initial_image(),
                    c.word_size(),
                    c.start(),
                    c.log(),
                    sv,
                    row,
                );
            }
        }
        let range_counts = range_checker.counts_vec();
        let range_trace = range_checker.generate_trace();
        let ghost range_requests = range_checker.requests();
        proof {
            range_checker.lemma_wf_bits();
            self.range_checker.lemma_wf_bits();
        }
        let initial_digest = match digest(&initial_memory) {
            Ok(d) => Some(d),
            Err(_) => None,
        };
        let final_digest = match digest(&final_memory) {
            Ok(d) => Some(d),
            Err(_) => None,
        };
        Ok(
            SegmentResult {
                log,
                trace,
                boundary,
                range_counts,
                range_trace,
                range_requests: Ghost(range_requests),
                initial_memory,
                final_memory,
                initial_digest,
                final_digest,
                end_timestamp,
            },
        )
    }
}

/// Continuation linking: a segment that starts from the final memory of the
/// previous one reads, in any cell it has not accessed, the word that cell held
/// at the end of the previous segment.
pub proof fn lemma_continuation_linking(
    previous_final: MemoryImage,
    next: MemoryController,
    c: (u32, u32),
)
    requires
        next.wf(),
        next.initial_image() == previous_final.image(),
        next.config() == previous_final.config(),
        forall|i: int| 0 <= i < next.log().len() ==> cell_of(#[trigger] next.log()[i]) != c,
    ensures
        next.value(c) == previous_final.value(c),
{
    next.lemma_log_facts();
    lemma_last_value_untouched(
        next.initial_image(),
        next.word_size(),
        next.log(),
        next.log().len() as int,
        c,
    );
    assert(next.log().take(next.log().len() as int) =~= next.log());
}

/// A leaf of the memory tree whose cells a segment never accessed is the same
/// in the segment's final memory as in the memory it started from.
pub proof fn lemma_untouched_leaf(previous_final: MemoryImage, next: MemoryController, l: int)
    requires
        next.wf(),
        next.initial_image() == previous_final.image(),
        next.config() == previous_final.config(),
        tree_config_ok(next.config()),
        forall|i: int, w: int|
            0 <= i < next.log().len() && 0 <= w < pow2(
                leaf_words_bits(next.word_size()) as nat,
            ) ==> cell_of(#[trigger] next.log()[i]) != #[trigger] leaf_cell(next.config(), l, w),
    ensures
        leaf_of(next.memory().image(), next.config(), l) == leaf_of(
            previous_final.image(),
            next.config(),
            l,
        ),
{
    let config = next.config();
    let ws = config.word_size as int;
    let wpl = pow2(leaf_words_bits(ws as nat) as nat) as int;
    next.lemma_log_facts();
    assert(wpl * ws == 8) by {
        vstd::arithmetic::power2::lemma2_to64();
        if ws == 1 {
            assert(wpl == pow2(3));
        } else if ws == 2 {
            assert(wpl == pow2(2));
        } else if ws == 4 {
            assert(wpl == pow2(1));
        } else {
            assert(wpl == pow2(0));
        }
    }
    assert forall|e: int| 0 <= e < 8 implies #[trigger] leaf_of(next.memory().image(), config, l)[e]
        == leaf_of(previous_final.image(), config, l)[e] by {
        let w = e / ws;
        assert(0 <= w < wpl) by (nonlinear_arith)
            requires
                w == e / ws,
                0 <= e < 8,
                wpl * ws == 8,
                ws > 0,
        ;
        let c = leaf_cell(config, l, w);
        assert forall|i: int| 0 <= i < next.log().len() implies cell_of(#[trigger] next.log()[i]) != c by {
            assert(cell_of(next.log()[i]) != leaf_cell(config, l, w));
        }
        lemma_continuation_linking(previous_final, next, c);
    }
    assert(leaf_of(next.memory().image(), config, l) =~= leaf_of(previous_final.image(), config, l));
}

/// A segment that started from `previous_final` and never accessed a cell of
/// leaf `l` ends with that leaf unchanged, so its final digest and the previous
/// segment's final digest agree on that leaf.
pub proof fn lemma_segment_untouched_leaf(previous_final: MemoryImage, seg: ExecutionSegment, l: int)
    requires
        seg.wf(),
        seg.initial() == previous_final,
        tree_config_ok(previous_final.config()),
        forall|i: int, w: int|
            0 <= i < seg.controller().log().len() && 0 <= w < pow2(
                leaf_words_bits(previous_final.word_size()) as nat,
            ) ==> cell_of(#[trigger] seg.controller().log()[i]) != #[trigger] leaf_cell(
                previous_final.config(),
                l,
                w,
            ),
    ensures
        leaf_of(seg.controller().memory().image(), previous_final.config(), l) == leaf_of(
            previous_final.image(),
            previous_final.config(),
            l,
        ),
{
    seg.lemma_wf();
    lemma_untouched_leaf(previous_final, seg.controller(), l);
}

} // verus!
