use vstd::prelude::*;

use vstd::arithmetic::power2::{lemma_pow2_strictly_increases, lemma_pow2_unfold, pow2};

use crate::is_less_than_tuple::{
    comparison_holds, lemma_comparison_sound, lemma_top_diff, limbs_fit, top_diff, tuple_less,
    ComparatorError, IsLessThanTupleAir, IsLessThanTupleAux,
};
use crate::range_checker::{
    count_index, counters_have_room, lemma_request_count_concat, request_count, RangeCheckError,
    VariableRangeCheckerBus, VariableRangeCheckerChip,
};

verus! {

/// Every key is strictly smaller than the next one.
pub open spec fn strictly_sorted(keys: Seq<Seq<u32>>) -> bool {
    forall|i: int| 0 <= i < keys.len() - 1 ==> tuple_less(#[trigger] keys[i], keys[i + 1])
}

/// The keys of a trace, as plain sequences.
pub open spec fn keys_view(keys: Seq<Vec<u32>>) -> Seq<Seq<u32>> {
    keys.map_values(|k: Vec<u32>| k@)
}

/// The range checks that comparison rows ask for: each row's limb difference
/// against the width of its limb.
pub open spec fn row_requests(bits: Seq<usize>, rows: Seq<AssertSortedRow>) -> Seq<(u32, usize)> {
    rows.map_values(|r: AssertSortedRow| (r.aux.diff, bits[r.aux.diff_index as int]))
}

/// The range checks of a sorted trace: those of every row but the last, which
/// compares with nothing.
pub open spec fn order_requests(bits: Seq<usize>, rows: Seq<AssertSortedRow>) -> Seq<(u32, usize)> {
    if rows.len() == 0 {
        Seq::empty()
    } else {
        row_requests(bits, rows.drop_last())
    }
}

/// One trace row: the comparison of its key against the key of the next row.
#[derive(Clone, Copy, Debug, PartialEq, Eq, Structural)]
pub struct AssertSortedRow {
    pub less_than_next_key: bool,
    pub aux: IsLessThanTupleAux,
}

/// Asserts that the keys of consecutive rows are strictly increasing, running
/// the tuple comparator between each row and the next.
#[derive(Clone, Debug)]
pub struct AssertSortedAir {
    pub is_less_than_tuple_air: IsLessThanTupleAir,
}

/// The constraints of a whole trace: one row per key, and each key is claimed
/// and certified smaller than the next.
pub open spec fn sorted_trace_holds(
    bits: Seq<usize>,
    keys: Seq<Seq<u32>>,
    rows: Seq<AssertSortedRow>,
) -> bool {
    &&& rows.len() == keys.len()
    &&& forall|i: int|
        0 <= i < keys.len() - 1 ==> {
            &&& (#[trigger] rows[i]).less_than_next_key
            &&& comparison_holds(bits, keys[i], keys[i + 1], true, rows[i].aux)
        }
}

/// A trace that satisfies the constraints has strictly increasing keys.
pub proof fn lemma_sorted_trace_sound(
    bits: Seq<usize>,
    keys: Seq<Seq<u32>>,
    rows: Seq<AssertSortedRow>,
)
    requires
        sorted_trace_holds(bits, keys, rows),
    ensures
        strictly_sorted(keys),
{
    assert forall|i: int| 0 <= i < keys.len() - 1 implies tuple_less(
        #[trigger] keys[i],
        keys[i + 1],
    ) by {
        assert(rows[i].less_than_next_key);
        lemma_comparison_sound(bits, keys[i], keys[i + 1], true, rows[i].aux);
    }
}

impl AssertSortedAir {
    pub open spec fn wf(&self) -> bool {
        self.is_less_than_tuple_air.wf()
    }

    pub open spec fn limb_bits(&self) -> Seq<usize> {
        self.is_less_than_tuple_air.limb_bits@
    }

    pub fn new(bus: VariableRangeCheckerBus, limb_bits: Vec<usize>) -> (r: Result<
        Self,
        ComparatorError,
    >)
        ensures
            limb_bits@.len() == 0 ==> r == Err::<Self, _>(ComparatorError::EmptyTuple),
            limb_bits@.len() > 0 && (exists|i: int|
                0 <= i < limb_bits@.len() && #[trigger] limb_bits@[i] > bus.range_max_bits)
                ==> r == Err::<Self, _>(ComparatorError::LimbTooWide),
            r is Ok ==> r->Ok_0.wf() && r->Ok_0.is_less_than_tuple_air.bus == bus
                && r->Ok_0.limb_bits() == limb_bits@,
            limb_bits@.len() > 0 && (forall|i: int|
                0 <= i < limb_bits@.len() ==> #[trigger] limb_bits@[i] <= bus.range_max_bits)
                ==> r is Ok,
    {
        match IsLessThanTupleAir::new(bus, limb_bits) {
            Ok(air) => Ok(AssertSortedAir { is_less_than_tuple_air: air }),
            Err(e) => Err(e),
        }
    }

    /// Builds one row per key. Fails when a key is not smaller than the next
    /// one (`Ok(Err(i))` names the first such row), or when the lookup table
    /// refuses a check.
    pub fn generate_trace(&self, keys: &Vec<Vec<u32>>, range_checker: &mut VariableRangeCheckerChip)
        -> (r: Result<Result<Vec<AssertSortedRow>, usize>, RangeCheckError>)
        requires
            self.wf(),
            old(range_checker).wf(),
            old(range_checker).spec_bus() == self.is_less_than_tuple_air.bus,
            forall|i: int| 0 <= i < keys@.len() ==> limbs_fit(#[trigger] keys@[i]@, self.limb_bits()),
        ensures
            final(range_checker).wf(),
            final(range_checker).spec_bus() == old(range_checker).spec_bus(),
            r matches Ok(Ok(rows)) ==> sorted_trace_holds(self.limb_bits(), keys_view(keys@), rows@),
            r matches Ok(Err(i)) ==> 0 <= i < keys@.len() - 1 && !tuple_less(keys@[i as int]@, keys@[i + 1]@)
                && forall|j: int| 0 <= j < i ==> tuple_less(#[trigger] keys@[j]@, keys@[j + 1]@),
            strictly_sorted(keys_view(keys@)) ==> !(r matches Ok(Err(_))),
            r matches Ok(Ok(rows)) ==> final(range_checker).requests() == old(range_checker).requests()
                + order_requests(self.limb_bits(), rows@),
            counters_have_room(old(range_checker).counts(), keys@.len() as int) ==> r is Ok,
            counters_have_room(old(range_checker).counts(), keys@.len() as int) ==> (strictly_sorted(
                keys_view(keys@),
            ) <==> r matches Ok(Ok(_))),
    {
        let ghost kv = keys_view(keys@);
        let ghost rc0 = *range_checker;
        let ghost bits = self.limb_bits();
        proof {
            rc0.lemma_wf_bits();
        }
        let n = keys.len();
        let mut rows: Vec<AssertSortedRow> = Vec::new();
        let mut i: usize = 0;
        while i + 1 < n
            invariant
                self.wf(),
                n == keys@.len(),
                kv == keys_view(keys@),
                i <= n,
                n > 0 ==> i < n,
                rows@.len() == i,
                range_checker.wf(),
                range_checker.spec_bus() == self.is_less_than_tuple_air.bus,
                range_checker.spec_bus() == old(range_checker).spec_bus(),
                rc0 == *old(range_checker),
                bits == self.limb_bits(),
                rc0.counts().len() == pow2(rc0.max_bits() + 1),
                forall|j: int| 0 <= j < rc0.counts().len() ==> #[trigger] rc0.counts()[j] == request_count(
                    rc0.requests(),
                    j,
                ),
                range_checker.requests() == rc0.requests() + row_requests(bits, rows@),
                forall|j: int| 0 <= j < keys@.len() ==> limbs_fit(#[trigger] keys@[j]@, self.limb_bits()),
                forall|j: int|
                    0 <= j < i ==> {
                        &&& (#[trigger] rows@[j]).less_than_next_key
                        &&& comparison_holds(self.limb_bits(), kv[j], kv[j + 1], true, rows@[j].aux)
                    },
            decreases n - i,
        {
            let ghost before = *range_checker;
            proof {
                before.lemma_wf_bits();
                lemma_top_diff(keys@[i as int]@, keys@[i + 1]@);
            }
            let (less, aux) = match self.is_less_than_tuple_air.generate(
                &keys[i],
                &keys[i + 1],
                range_checker,
            ) {
                Ok(v) => v,
                Err(e) => {
                    proof {
                        let x = keys@[i as int]@;
                        let y = keys@[i + 1]@;
                        let k = top_diff(x, y);
                        let b = bits[k];
                        let d = if x[k] < y[k] {
                            y[k] - x[k] - 1
                        } else {
                            x[k] - y[k] - 1
                        };
                        let idx = count_index(d, b as nat);
                        assert(limbs_fit(x, bits) && limbs_fit(y, bits));
                        assert(x[k] < pow2(b as nat) && y[k] < pow2(b as nat));
                        assert(b <= rc0.max_bits());
                        lemma_pow2_unfold(b as nat + 1);
                        if b < rc0.max_bits() {
                            lemma_pow2_strictly_increases(b as nat + 1, rc0.max_bits() + 1);
                        }
                        assert(0 <= idx < rc0.counts().len());
                        lemma_request_count_concat(rc0.requests(), row_requests(bits, rows@), idx);
                        assert(before.counts()[idx] == request_count(before.requests(), idx));
                        assert(!counters_have_room(rc0.counts(), n as int)) by {
                            assert(rc0.counts()[idx] + n >= u32::MAX);
                        }
                    }
                    return Err(e);
                },
            };
            proof {
                if keys@[i as int]@ == keys@[i + 1]@ {
                    assert(!less);
                }
            }
            if !less {
                proof {
                    assert forall|j: int| 0 <= j < i implies tuple_less(
                        #[trigger] keys@[j]@,
                        keys@[j + 1]@,
                    ) by {
                        assert(rows@[j].less_than_next_key);
                        lemma_comparison_sound(self.limb_bits(), kv[j], kv[j + 1], true, rows@[j].aux);
                    }
                }
                assert(kv[i as int] == keys@[i as int]@ && kv[i + 1] == keys@[i + 1]@);
                return Ok(Err(i));
            }
            let ghost old_rows = rows@;
            rows.push(AssertSortedRow { less_than_next_key: true, aux });
            proof {
                assert(row_requests(bits, rows@) =~= row_requests(bits, old_rows).push(
                    (aux.diff, bits[aux.diff_index as int]),
                ));
                assert(range_checker.requests() =~= rc0.requests() + row_requests(bits, rows@));
            }
            i += 1;
        }
        let ghost body_rows = rows@;
        if n > 0 {
            rows.push(
                AssertSortedRow {
                    less_than_next_key: false,
                    aux: IsLessThanTupleAux { diff_index: 0, diff: 0 },
                },
            );
        }
        assert forall|j: int| 0 <= j < kv.len() - 1 implies {
            &&& (#[trigger] rows@[j]).less_than_next_key
            &&& comparison_holds(self.limb_bits(), kv[j], kv[j + 1], true, rows@[j].aux)
        } by {
            assert(j < i);
        }
        proof {
            if n > 0 {
                assert(rows@.drop_last() =~= body_rows);
            } else {
                assert(rows@.len() == 0);
                assert(row_requests(bits, body_rows) =~= Seq::<(u32, usize)>::empty());
                assert(range_checker.requests() =~= rc0.requests() + order_requests(bits, rows@));
            }
            lemma_sorted_trace_sound(bits, kv, rows@);
        }
        Ok(Ok(rows))
    }

    /// Checks the constraints of a whole trace against its keys.
    pub fn eval(&self, keys: &Vec<Vec<u32>>, rows: &Vec<AssertSortedRow>) -> (r: bool)
        ensures
            r == sorted_trace_holds(self.limb_bits(), keys_view(keys@), rows@),
    {
        let ghost kv = keys_view(keys@);
        let n = keys.len();
        if rows.len() != n {
            return false;
        }
        let mut i: usize = 0;
        while i + 1 < n
            invariant
                n == keys@.len(),
                n == rows@.len(),
                i <= n,
                kv == keys_view(keys@),
                n > 0 ==> i < n,
                forall|j: int|
                    0 <= j < i ==> {
                        &&& (#[trigger] rows@[j]).less_than_next_key
                        &&& comparison_holds(self.limb_bits(), kv[j], kv[j + 1], true, rows@[j].aux)
                    },
            decreases n - i,
        {
            let row = rows[i];
            if !row.less_than_next_key || !self.is_less_than_tuple_air.eval(
                &keys[i],
                &keys[i + 1],
                true,
                &row.aux,
            ) {
                assert(!{
                    &&& rows@[i as int].less_than_next_key
                    &&& comparison_holds(self.limb_bits(), kv[i as int], kv[i + 1], true, rows@[i as int].aux)
                });
                return false;
            }
            i += 1;
        }
        true
    }
}

} // verus!
