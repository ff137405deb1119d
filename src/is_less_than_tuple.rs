use vstd::arithmetic::power2::pow2;
use vstd::prelude::*;

use crate::range_checker::{
    count_index, RangeCheckError, VariableRangeCheckerBus, VariableRangeCheckerChip,
};

verus! {

/// `x < y` for tuples stored little-limb-first: the last limb is the most
/// significant one.
pub open spec fn tuple_less(x: Seq<u32>, y: Seq<u32>) -> bool
    decreases x.len(),
{
    if x.len() == 0 || y.len() == 0 {
        false
    } else if x.last() != y.last() {
        x.last() < y.last()
    } else {
        tuple_less(x.drop_last(), y.drop_last())
    }
}

/// Index of the most significant limb where `x` and `y` differ, or -1.
pub open spec fn top_diff(x: Seq<u32>, y: Seq<u32>) -> int
    decreases x.len(),
{
    if x.len() == 0 || y.len() == 0 {
        -1
    } else if x.last() != y.last() {
        x.len() - 1
    } else {
        top_diff(x.drop_last(), y.drop_last())
    }
}

/// Every limb fits in its declared width.
pub open spec fn limbs_fit(x: Seq<u32>, bits: Seq<usize>) -> bool {
    &&& x.len() == bits.len()
    &&& forall|i: int| 0 <= i < x.len() ==> (#[trigger] x[i]) < pow2(bits[i] as nat)
}

pub proof fn lemma_top_diff(x: Seq<u32>, y: Seq<u32>)
    requires
        x.len() == y.len(),
    ensures
        -1 <= top_diff(x, y) < x.len(),
        top_diff(x, y) == -1 ==> x == y && !tuple_less(x, y),
        top_diff(x, y) >= 0 ==> {
            let k = top_diff(x, y);
            &&& x[k] != y[k]
            &&& tuple_less(x, y) == (x[k] < y[k])
        },
        forall|j: int| top_diff(x, y) < j < x.len() ==> x[j] == y[j],
    decreases x.len(),
{
    if x.len() > 0 && x.last() == y.last() {
        lemma_top_diff(x.drop_last(), y.drop_last());
        if top_diff(x, y) == -1 {
            assert(x =~= x.drop_last().push(x.last()));
            assert(y =~= y.drop_last().push(y.last()));
        }
        assert forall|j: int| top_diff(x, y) < j < x.len() implies x[j] == y[j] by {
            if j < x.len() - 1 {
                assert(x[j] == x.drop_last()[j]);
                assert(y[j] == y.drop_last()[j]);
            }
        }
    } else if x.len() == 0 {
        assert(x =~= y);
    }
}

/// Auxiliary values certifying one comparison.
#[derive(Clone, Copy, Debug, PartialEq, Eq, Structural)]
pub struct IsLessThanTupleAux {
    /// Most significant differing limb; the tuple length when the tuples are equal.
    pub diff_index: usize,
    /// `|x - y| - 1` at `diff_index`, checked to fit in that limb's width.
    pub diff: u32,
}

/// The constraints of one comparison: `less` claims `x < y`, `aux` certifies it.
pub open spec fn comparison_holds(
    bits: Seq<usize>,
    x: Seq<u32>,
    y: Seq<u32>,
    less: bool,
    aux: IsLessThanTupleAux,
) -> bool {
    let k = aux.diff_index as int;
    let n = bits.len() as int;
    &&& x.len() == n && y.len() == n
    &&& k <= n
    &&& forall|j: int| 0 <= j < n && (k == n || k < j) ==> x[j] == y[j]
    &&& k == n ==> !less
    &&& k < n ==> {
        &&& x[k] != y[k]
        &&& less ==> y[k] - x[k] - 1 == aux.diff
        &&& !less ==> x[k] - y[k] - 1 == aux.diff
        &&& aux.diff < pow2(bits[k] as nat)
    }
}

/// Soundness of the comparison constraints: whatever satisfies them claims the
/// true order.
pub proof fn lemma_comparison_sound(
    bits: Seq<usize>,
    x: Seq<u32>,
    y: Seq<u32>,
    less: bool,
    aux: IsLessThanTupleAux,
)
    requires
        comparison_holds(bits, x, y, less, aux),
    ensures
        less == tuple_less(x, y),
{
    lemma_top_diff(x, y);
    let k = aux.diff_index as int;
    let t = top_diff(x, y);
    if k == bits.len() {
        assert(x =~= y);
    } else {
        assert(t == k) by {
            if t > k {
                assert(x[t] == y[t]);
            }
            if t < k {
                assert(x[k] == y[k]);
            }
        }
    }
}

/// Why a comparator could not be built.
#[derive(Clone, Copy, Debug, PartialEq, Eq, Structural)]
pub enum ComparatorError {
    /// A comparison needs at least one limb.
    EmptyTuple,
    /// A limb is wider than the lookup table's ceiling.
    LimbTooWide,
}

/// Compares two limb-decomposed tuples whose limb widths are fixed up front,
/// certifying the result through range checks on limb differences.
#[derive(Clone, Debug)]
pub struct IsLessThanTupleAir {
    pub bus: VariableRangeCheckerBus,
    pub limb_bits: Vec<usize>,
}

impl IsLessThanTupleAir {
    pub open spec fn wf(&self) -> bool {
        &&& self.limb_bits@.len() > 0
        &&& forall|i: int|
            0 <= i < self.limb_bits@.len() ==> #[trigger] self.limb_bits@[i]
                <= self.bus.range_max_bits
    }

    pub fn new(bus: VariableRangeCheckerBus, limb_bits: Vec<usize>) -> (r: Result<
        Self,
        ComparatorError,
    >)
        ensures
            limb_bits@.len() == 0 ==> r == Err::<Self, _>(ComparatorError::EmptyTuple),
            limb_bits@.len() > 0 && (exists|i: int|
                0 <= i < limb_bits@.len() && #[trigger] limb_bits@[i] > bus.range_max_bits)
                ==> r == Err::<Self, _>(ComparatorError::LimbTooWide),
            r is Ok ==> r->Ok_0.wf() && r->Ok_0.bus == bus && r->Ok_0.limb_bits@ == limb_bits@,
            limb_bits@.len() > 0 && (forall|i: int|
                0 <= i < limb_bits@.len() ==> #[trigger] limb_bits@[i] <= bus.range_max_bits)
                ==> r is Ok,
    {
        if limb_bits.len() == 0 {
            return Err(ComparatorError::EmptyTuple);
        }
        let mut i: usize = 0;
        while i < limb_bits.len()
            invariant
                i <= limb_bits@.len(),
                forall|j: int| 0 <= j < i ==> #[trigger] limb_bits@[j] <= bus.range_max_bits,
            decreases limb_bits@.len() - i,
        {
            if limb_bits[i] > bus.range_max_bits {
                return Err(ComparatorError::LimbTooWide);
            }
            i += 1;
        }
        Ok(IsLessThanTupleAir { bus, limb_bits })
    }

    /// Checks the constraints of one comparison.
    pub fn eval(&self, x: &Vec<u32>, y: &Vec<u32>, less: bool, aux: &IsLessThanTupleAux) -> (r:
        bool)
        ensures
            r == comparison_holds(self.limb_bits@, x@, y@, less, *aux),
    {
        let n = self.limb_bits.len();
        if x.len() != n || y.len() != n || aux.diff_index > n {
            return false;
        }
        let k = aux.diff_index;
        let mut j: usize = 0;
        while j < n
            invariant
                j <= n,
                k <= n,
                k == aux.diff_index,
                n == self.limb_bits@.len(),
                x@.len() == n && y@.len() == n,
                forall|i: int| 0 <= i < j && (k == n || k < i) ==> x@[i] == y@[i],
            decreases n - j,
        {
            if (k == n || k < j) && x[j] != y[j] {
                assert(x@[j as int] != y@[j as int]);
                return false;
            }
            j += 1;
        }
        if k == n {
            return !less;
        }
        if x[k] == y[k] {
            return false;
        }
        let ok = if less {
            y[k] > x[k] && y[k] - x[k] - 1 == aux.diff
        } else {
            x[k] > y[k] && x[k] - y[k] - 1 == aux.diff
        };
        if !ok {
            return false;
        }
        fits_bits(aux.diff, self.limb_bits[k])
    }

    /// Decides `x < y` and fills in the auxiliary values, requesting from the
    /// lookup service the range check of the limb difference it certifies.
    pub fn generate(&self, x: &Vec<u32>, y: &Vec<u32>, range_checker: &mut VariableRangeCheckerChip)
        -> (r: Result<(bool, IsLessThanTupleAux), RangeCheckError>)
        requires
            self.wf(),
            old(range_checker).wf(),
            old(range_checker).spec_bus() == self.bus,
            limbs_fit(x@, self.limb_bits@),
            limbs_fit(y@, self.limb_bits@),
        ensures
            final(range_checker).wf(),
            final(range_checker).spec_bus() == old(range_checker).spec_bus(),
            r is Ok ==> r->Ok_0.0 == tuple_less(x@, y@) && comparison_holds(
                self.limb_bits@,
                x@,
                y@,
                r->Ok_0.0,
                r->Ok_0.1,
            ),
            r is Ok && x@ == y@ ==> final(range_checker).counts() == old(range_checker).counts()
                && final(range_checker).requests() == old(range_checker).requests(),
            r is Ok && x@ != y@ ==> {
                let k = r->Ok_0.1.diff_index;
                let d = r->Ok_0.1.diff;
                let idx = count_index(d as int, self.limb_bits@[k as int] as nat);
                &&& final(range_checker).requests() == old(range_checker).requests().push(
                    (d, self.limb_bits@[k as int]),
                )
                &&& final(range_checker).counts() == old(range_checker).counts().update(
                    idx,
                    (old(range_checker).counts()[idx] + 1) as u32,
                )
            },
            x@ == y@ ==> r is Ok,
            x@ != y@ ==> {
                let k = top_diff(x@, y@);
                &&& 0 <= k < x@.len()
                &&& {let d = if x@[k] < y@[k] {
                    y@[k] - x@[k] - 1
                } else {
                    x@[k] - y@[k] - 1
                };
                r is Err <==> old(range_checker).counts()[count_index(
                    d,
                    self.limb_bits@[k] as nat,
                )] == u32::MAX}
            },
            r is Err ==> r == Err::<(bool, IsLessThanTupleAux), _>(RangeCheckError::CountOverflow)
                && final(range_checker).counts() == old(range_checker).counts()
                && final(range_checker).requests() == old(range_checker).requests(),
    {
        proof {
            lemma_top_diff(x@, y@);
        }
        let n = self.limb_bits.len();
        let mut k: usize = n;
        while k > 0 && x[k - 1] == y[k - 1]
            invariant
                k <= n,
                n == self.limb_bits@.len(),
                x@.len() == n && y@.len() == n,
                forall|j: int| k <= j < n ==> x@[j] == y@[j],
            decreases k,
        {
            k -= 1;
        }
        if k == 0 {
            assert(x@ =~= y@);
            return Ok((false, IsLessThanTupleAux { diff_index: n, diff: 0 }));
        }
        let k = k - 1;
        assert(top_diff(x@, y@) == k as int) by {
            let t = top_diff(x@, y@);
            if t > k as int {
                assert(x@[t] == y@[t]);
            }
        }
        let less = x[k] < y[k];
        let diff = if less {
            y[k] - x[k] - 1
        } else {
            x[k] - y[k] - 1
        };
        let bits = self.limb_bits[k];
        proof {
            assert(x@[k as int] < pow2(bits as nat));
            assert(y@[k as int] < pow2(bits as nat));
        }
        match range_checker.add_count(diff, bits) {
            Ok(()) => {},
            Err(e) => {
                return Err(e);
            },
        }
        Ok((less, IsLessThanTupleAux { diff_index: k, diff }))
    }
}

/// `value < 2^bits`.
pub fn fits_bits(value: u32, bits: usize) -> (r: bool)
    ensures
        r == (value < pow2(bits as nat)),
{
    if bits >= 32 {
        proof {
            vstd::bits::lemma_u64_pow2_no_overflow(32);
            vstd::arithmetic::power2::lemma2_to64();
            if bits > 32 {
                vstd::arithmetic::power2::lemma_pow2_strictly_increases(32, bits as nat);
            }
        }
        true
    } else {
        proof {
            vstd::bits::lemma_u64_pow2_no_overflow(bits as nat);
            assert(1 * pow2(bits as nat) == pow2(bits as nat));
            vstd::bits::lemma_u64_shl_is_mul(1, bits as u64);
        }
        (value as u64) < (1u64 << bits as u64)
    }
}

} // verus!
