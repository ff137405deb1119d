use vstd::arithmetic::power2::{lemma_pow2_strictly_increases, pow2};
use vstd::bits::{lemma_u64_pow2_no_overflow, lemma_u64_shl_is_mul};
use vstd::prelude::*;

verus! {

/// Number of columns of the lookup table's trace: value, bit-width, multiplicity.
pub const NUM_VARIABLE_RANGE_COLS: usize = 3;

/// Largest bit-width ceiling the lookup table can be built for: the table has
/// `2^(ceiling + 1)` entries, and `2^31` is the most a `usize` is sure to index
/// (it is 32 bits wide on some targets).
pub const MAX_RANGE_MAX_BITS: usize = 30;

/// Identifies the lookup bus and the largest bit-width it accepts.
#[derive(Clone, Copy, Debug, PartialEq, Eq, Structural)]
pub struct VariableRangeCheckerBus {
    pub index: usize,
    pub range_max_bits: usize,
}

impl VariableRangeCheckerBus {
    pub fn new(index: usize, range_max_bits: usize) -> (r: Self)
        ensures
            r.index == index,
            r.range_max_bits == range_max_bits,
    {
        VariableRangeCheckerBus { index, range_max_bits }
    }
}

/// The lookup table's constraint system: it only needs to know its bus.
#[derive(Clone, Copy, Debug, PartialEq, Eq, Structural)]
pub struct VariableRangeCheckerAir {
    pub bus: VariableRangeCheckerBus,
}

impl VariableRangeCheckerAir {
    pub fn new(bus: VariableRangeCheckerBus) -> (r: Self)
        ensures
            r.bus == bus,
    {
        VariableRangeCheckerAir { bus }
    }

    pub fn range_max_bits(&self) -> (r: usize)
        ensures
            r == self.bus.range_max_bits,
    {
        self.bus.range_max_bits
    }
}

/// Why a range check was refused.
#[derive(Clone, Copy, Debug, PartialEq, Eq, Structural)]
pub enum RangeCheckError {
    /// The requested bit-width exceeds the table's ceiling.
    BitsExceeded,
    /// The value does not fit in the requested number of bits.
    ValueOutOfRange,
    /// The counter for this (bit-width, value) pair cannot grow any further.
    CountOverflow,
}

/// Position of the counter for `value` checked against `bits` bits: offsetting
/// by `2^bits` keeps the indices of different bit-widths apart, and index 0 is
/// the padding entry that stands for "no check".
pub open spec fn count_index(value: int, bits: nat) -> int {
    pow2(bits) + value
}

/// Whether `value < 2^bits` with `bits` within the ceiling `max_bits`.
pub open spec fn valid_check(value: int, bits: nat, max_bits: nat) -> bool {
    &&& bits <= max_bits
    &&& 0 <= value < pow2(bits)
}

/// Number of requests in `reqs` whose counter sits at index `idx`.
pub open spec fn request_count(reqs: Seq<(u32, usize)>, idx: int) -> nat
    decreases reqs.len(),
{
    if reqs.len() == 0 {
        0
    } else {
        request_count(reqs.drop_last(), idx) + if count_index(reqs.last().0 as int, reqs.last().1 as nat)
            == idx {
            1nat
        } else {
            0nat
        }
    }
}

/// Number of requests in `reqs` equal to `(v, b)`.
pub open spec fn pair_count(reqs: Seq<(u32, usize)>, v: int, b: nat) -> nat
    decreases reqs.len(),
{
    if reqs.len() == 0 {
        0
    } else {
        pair_count(reqs.drop_last(), v, b) + if reqs.last().0 as int == v && reqs.last().1 as nat
            == b {
            1nat
        } else {
            0nat
        }
    }
}

pub proof fn lemma_request_count_concat(a: Seq<(u32, usize)>, b: Seq<(u32, usize)>, idx: int)
    ensures
        request_count(a + b, idx) == request_count(a, idx) + request_count(b, idx),
        request_count(b, idx) <= b.len(),
    decreases b.len(),
{
    if b.len() == 0 {
        assert(a + b =~= a);
    } else {
        assert((a + b).drop_last() =~= a + b.drop_last());
        lemma_request_count_concat(a, b.drop_last(), idx);
    }
}

/// Distinct valid (value, width) pairs have distinct counter indices.
pub proof fn lemma_count_index_injective(v1: int, b1: nat, v2: int, b2: nat)
    requires
        0 <= v1 < pow2(b1),
        0 <= v2 < pow2(b2),
        count_index(v1, b1) == count_index(v2, b2),
    ensures
        v1 == v2 && b1 == b2,
{
    if b1 < b2 {
        vstd::arithmetic::power2::lemma_pow2_unfold(b1 + 1);
        if b1 + 1 < b2 {
            lemma_pow2_strictly_increases(b1 + 1, b2);
        }
    } else if b2 < b1 {
        vstd::arithmetic::power2::lemma_pow2_unfold(b2 + 1);
        if b2 + 1 < b1 {
            lemma_pow2_strictly_increases(b2 + 1, b1);
        }
    }
}

proof fn lemma_request_count_pairs(reqs: Seq<(u32, usize)>, v: int, b: nat)
    requires
        forall|k: int| 0 <= k < reqs.len() ==> (#[trigger] reqs[k]).0 < pow2(reqs[k].1 as nat),
        0 <= v < pow2(b),
    ensures
        request_count(reqs, count_index(v, b)) == pair_count(reqs, v, b),
        request_count(reqs, 0) == 0,
    decreases reqs.len(),
{
    if reqs.len() > 0 {
        let t = reqs.drop_last();
        assert forall|k: int| 0 <= k < t.len() implies (#[trigger] t[k]).0 < pow2(t[k].1 as nat) by {
            assert(t[k] == reqs[k]);
        }
        lemma_request_count_pairs(t, v, b);
        let (lv, lb) = reqs.last();
        assert(lv < pow2(lb as nat));
        vstd::arithmetic::power2::lemma_pow2_pos(lb as nat);
        if count_index(lv as int, lb as nat) == count_index(v, b) {
            lemma_count_index_injective(lv as int, lb as nat, v, b);
        }
    }
}

proof fn lemma_request_count_member(reqs: Seq<(u32, usize)>, k: int)
    requires
        0 <= k < reqs.len(),
    ensures
        request_count(reqs, count_index(reqs[k].0 as int, reqs[k].1 as nat)) >= 1,
    decreases reqs.len(),
{
    if k < reqs.len() - 1 {
        assert(reqs.drop_last()[k] == reqs[k]);
        lemma_request_count_member(reqs.drop_last(), k);
    }
}

/// Every counter can take `n` more requests.
pub open spec fn counters_have_room(counts: Seq<u32>, n: int) -> bool {
    forall|i: int| 0 <= i < counts.len() ==> #[trigger] counts[i] + n < u32::MAX
}

/// Sum of all counters.
pub open spec fn count_total(s: Seq<u32>) -> int
    decreases s.len(),
{
    if s.len() == 0 {
        0
    } else {
        count_total(s.drop_last()) + s.last()
    }
}

pub proof fn lemma_count_total_update(s: Seq<u32>, i: int, v: u32)
    requires
        0 <= i < s.len(),
    ensures
        count_total(s.update(i, v)) == count_total(s) - s[i] + v,
    decreases s.len(),
{
    let t = s.update(i, v);
    if i == s.len() - 1 {
        assert(t.drop_last() =~= s.drop_last());
    } else {
        assert(t.drop_last() =~= s.drop_last().update(i, v));
        lemma_count_total_update(s.drop_last(), i, v);
    }
}

pub proof fn lemma_count_total_zeros(n: nat)
    ensures
        count_total(Seq::new(n, |i: int| 0u32)) == 0,
    decreases n,
{
    if n > 0 {
        assert(Seq::new(n, |i: int| 0u32).drop_last() =~= Seq::new((n - 1) as nat, |i: int| 0u32));
        lemma_count_total_zeros((n - 1) as nat);
    }
}

/// One row of the lookup table: a (value, bit-width) pair and how many checks
/// asked for it.
#[derive(Clone, Copy, Debug, PartialEq, Eq, Structural)]
pub struct VariableRangeCols {
    pub value: u32,
    pub max_bits: u32,
    pub mult: u32,
}

/// The shared bounded-value lookup service. Each `add_count(v, b)` records one
/// request that `v < 2^b`, at index `2^b + v` of the counter table.

pub struct VariableRangeCheckerChip {
    pub air: VariableRangeCheckerAir,
    count: Vec<u32>,
    /// Every accepted request since construction or the last `clear`.
    requests: Ghost<Seq<(u32, usize)>>,
}

impl VariableRangeCheckerChip {
    /// The bus that the table answers on.
    pub closed spec fn spec_bus(&self) -> VariableRangeCheckerBus {
        self.air.bus
    }

    pub open spec fn max_bits(&self) -> nat {
        self.spec_bus().range_max_bits as nat
    }

    /// The counter table.
    pub closed spec fn counts(&self) -> Seq<u32> {
        self.count@
    }

    /// The accepted requests, oldest first.
    pub closed spec fn requests(&self) -> Seq<(u32, usize)> {
        self.requests@
    }

    pub closed spec fn wf(&self) -> bool {
        &&& self.max_bits() <= MAX_RANGE_MAX_BITS
        &&& self.count@.len() == pow2(self.max_bits() + 1)
        &&& count_total(self.count@) == self.requests@.len()
        &&& forall|k: int|
            0 <= k < self.requests@.len() ==> {
                let (v, b) = #[trigger] self.requests@[k];
                valid_check(v as int, b as nat, self.max_bits())
            }
        &&& forall|i: int|
            0 <= i < self.count@.len() ==> #[trigger] self.count@[i] == request_count(
                self.requests@,
                i,
            )
    }

    /// What a well-formed table states: its size, its ceiling, and that each
    /// counter is the number of accepted requests at its index.
    pub proof fn lemma_wf_bits(&self)
        requires
            self.wf(),
        ensures
            self.max_bits() <= MAX_RANGE_MAX_BITS,
            self.counts().len() == pow2(self.max_bits() + 1),
            forall|i: int|
                0 <= i < self.counts().len() ==> #[trigger] self.counts()[i] == request_count(
                    self.requests(),
                    i,
                ),
            forall|k: int|
                0 <= k < self.requests().len() ==> valid_check(
                    (#[trigger] self.requests()[k]).0 as int,
                    self.requests()[k].1 as nat,
                    self.max_bits(),
                ),
    {
        assert forall|k: int| 0 <= k < self.requests().len() implies valid_check(
            (#[trigger] self.requests()[k]).0 as int,
            self.requests()[k].1 as nat,
            self.max_bits(),
        ) by {
            let (v, b) = self.requests@[k];
        }
    }

    pub fn new(bus: VariableRangeCheckerBus) -> (r: Self)
        requires
            bus.range_max_bits <= MAX_RANGE_MAX_BITS,
        ensures
            r.wf(),
            r.spec_bus() == bus,
            r.max_bits() == bus.range_max_bits,
            r.counts() == Seq::new(pow2(bus.range_max_bits as nat + 1), |i: int| 0u32),
            r.requests().len() == 0,
    {
        let bits = bus.range_max_bits as u64 + 1;
        proof {
            lemma_u64_pow2_no_overflow(bits as nat);
            assert(1 * pow2(bits as nat) == pow2(bits as nat));
            lemma_u64_shl_is_mul(1, bits);
            lemma_pow2_strictly_increases(bits as nat, 32);
            vstd::arithmetic::power2::lemma2_to64();
        }
        let num_rows = (1u64 << bits) as usize;
        let mut count: Vec<u32> = Vec::with_capacity(num_rows);
        let mut i: usize = 0;
        while i < num_rows
            invariant
                i <= num_rows,
                count@ == Seq::new(i as nat, |j: int| 0u32),
            decreases num_rows - i,
        {
            count.push(0);
            i += 1;
            assert(count@ =~= Seq::new(i as nat, |j: int| 0u32));
        }
        proof {
            lemma_count_total_zeros(num_rows as nat);
        }
        VariableRangeCheckerChip {
            air: VariableRangeCheckerAir::new(bus),
            count,
            requests: Ghost(Seq::empty()),
        }
    }

    pub fn bus(&self) -> (r: VariableRangeCheckerBus)
        ensures
            r == self.spec_bus(),
    {
        self.air.bus
    }

    pub fn range_max_bits(&self) -> (r: usize)
        ensures
            r == self.max_bits(),
    {
        self.air.range_max_bits()
    }

    pub fn air_width(&self) -> (r: usize)
        ensures
            r == NUM_VARIABLE_RANGE_COLS,
    {
        NUM_VARIABLE_RANGE_COLS
    }

    /// Number of rows of the lookup table: one per (bit-width, value) index.
    pub fn num_rows(&self) -> (r: usize)
        requires
            self.wf(),
        ensures
            r == self.counts().len(),
    {
        self.count.len()
    }

    /// A copy of the counter table, one entry per (bit-width, value) index.
    pub fn counts_vec(&self) -> (r: Vec<u32>)
        ensures
            r@ == self.counts(),
    {
        let mut out: Vec<u32> = Vec::with_capacity(self.count.len());
        let mut i: usize = 0;
        while i < self.count.len()
            invariant
                i <= self.count@.len(),
                out@ == self.count@.take(i as int),
            decreases self.count@.len() - i,
        {
            out.push(self.count[i]);
            i += 1;
            assert(out@ =~= self.count@.take(i as int));
        }
        assert(self.count@.take(self.count@.len() as int) =~= self.count@);
        out
    }

    /// The table's trace: row 0 is the padding entry (value 0, width 0); row
    /// `2^b + v` is the pair (`v`, `b`) with its counter.
    pub fn generate_trace(&self) -> (r: Vec<VariableRangeCols>)
        requires
            self.wf(),
        ensures
            r@.len() == self.counts().len(),
            r@[0] == (VariableRangeCols { value: 0, max_bits: 0, mult: self.counts()[0] }),
            forall|b: nat, v: int|
                b <= self.max_bits() && 0 <= v < pow2(b) ==> r@[#[trigger] count_index(v, b)] == (
                VariableRangeCols { value: v as u32, max_bits: b as u32, mult: self.counts()[count_index(v, b)] }),
    {
        let max = self.air.bus.range_max_bits;
        proof {
            vstd::arithmetic::power2::lemma2_to64();
            vstd::arithmetic::power2::lemma_pow2_pos(0);
        }
        let mut rows: Vec<VariableRangeCols> = Vec::with_capacity(self.count.len());
        rows.push(VariableRangeCols { value: 0, max_bits: 0, mult: self.count[0] });
        let mut b: usize = 0;
        while b <= max
            invariant
                self.wf(),
                max == self.max_bits(),
                max <= MAX_RANGE_MAX_BITS,
                b <= max + 1,
                rows@.len() == pow2(b as nat),
                rows@[0] == (VariableRangeCols { value: 0, max_bits: 0, mult: self.count@[0] }),
                forall|k: nat, v: int|
                    k < b && 0 <= v < pow2(k) ==> rows@[#[trigger] count_index(v, k)] == (
                    VariableRangeCols { value: v as u32, max_bits: k as u32, mult: self.count@[count_index(v, k)] }),
            decreases max + 1 - b,
        {
            proof {
                vstd::arithmetic::power2::lemma2_to64();
                lemma_u64_pow2_no_overflow(b as nat);
                assert(1 * pow2(b as nat) == pow2(b as nat));
                lemma_u64_shl_is_mul(1, b as u64);
                vstd::arithmetic::power2::lemma_pow2_unfold(b as nat + 1);
                if b < max {
                    lemma_pow2_strictly_increases(b as nat + 1, max as nat + 1);
                }
                lemma_pow2_strictly_increases(b as nat, 31);
            }
            let p = (1u64 << b as u64) as usize;
            let mut v: usize = 0;
            while v < p
                invariant
                    self.wf(),
                    max == self.max_bits(),
                    b <= max,
                    p == pow2(b as nat),
                    p < 0x8000_0000,
                    2 * p <= self.count@.len(),
                    v <= p,
                    rows@.len() == p + v,
                    rows@[0] == (VariableRangeCols { value: 0, max_bits: 0, mult: self.count@[0] }),
                    forall|k: nat, w: int|
                        k < b && 0 <= w < pow2(k) ==> rows@[#[trigger] count_index(w, k)] == (
                        VariableRangeCols { value: w as u32, max_bits: k as u32, mult: self.count@[count_index(w, k)] }),
                    forall|w: int|
                        0 <= w < v ==> rows@[#[trigger] count_index(w, b as nat)] == (
                        VariableRangeCols { value: w as u32, max_bits: b as u32, mult: self.count@[count_index(w, b as nat)] }),
                decreases p - v,
            {
                let ghost before = rows@;
                rows.push(VariableRangeCols { value: v as u32, max_bits: b as u32, mult: self.count[p + v] });
                proof {
                    assert forall|k: nat, w: int| k < b && 0 <= w < pow2(k) implies rows@[#[trigger] count_index(w, k)] == (
                        VariableRangeCols { value: w as u32, max_bits: k as u32, mult: self.count@[count_index(w, k)] }) by {
                        lemma_pow2_strictly_increases(k, b as nat);
                        vstd::arithmetic::power2::lemma_pow2_unfold(k + 1);
                        if k + 1 < b {
                            lemma_pow2_strictly_increases(k + 1, b as nat);
                        }
                        assert(before[count_index(w, k)] == rows@[count_index(w, k)]);
                    }
                    assert forall|w: int| 0 <= w < v + 1 implies rows@[#[trigger] count_index(w, b as nat)] == (
                        VariableRangeCols { value: w as u32, max_bits: b as u32, mult: self.count@[count_index(w, b as nat)] }) by {
                        if w < v {
                            assert(before[count_index(w, b as nat)] == rows@[count_index(w, b as nat)]);
                        }
                    }
                }
                v += 1;
            }
            b += 1;
        }
        rows
    }

    /// Counter at `index` of the table.
    pub fn count_at(&self, index: usize) -> (r: u32)
        requires
            index < self.counts().len(),
        ensures
            r == self.counts()[index as int],
    {
        self.count[index]
    }

    /// The table index at which a request that `value < 2^max_bits` is
    /// counted, or why such a request is refused.
    pub fn request_index(&self, value: u32, max_bits: usize) -> (r: Result<usize, RangeCheckError>)
        requires
            self.wf(),
        ensures
            max_bits > self.max_bits() ==> r == Err::<usize, _>(RangeCheckError::BitsExceeded),
            max_bits <= self.max_bits() && value >= pow2(max_bits as nat) ==> r == Err::<usize, _>(
                RangeCheckError::ValueOutOfRange,
            ),
            valid_check(value as int, max_bits as nat, self.max_bits()) ==> r == Ok::<usize, RangeCheckError>(
                count_index(value as int, max_bits as nat) as usize,
            ),
            r matches Ok(i) ==> i < self.counts().len(),
    {
        if max_bits > self.air.bus.range_max_bits {
            return Err(RangeCheckError::BitsExceeded);
        }
        let bits = max_bits as u64;
        proof {
            lemma_u64_pow2_no_overflow(bits as nat);
            assert(1 * pow2(bits as nat) == pow2(bits as nat));
            lemma_u64_shl_is_mul(1, bits);
            lemma_pow2_strictly_increases(bits as nat, 31);
            vstd::arithmetic::power2::lemma2_to64();
            vstd::arithmetic::power2::lemma_pow2_unfold(bits as nat + 1);
            if bits < self.max_bits() {
                lemma_pow2_strictly_increases(bits as nat + 1, self.max_bits() + 1);
            }
        }
        let offset = 1u64 << bits;
        if value as u64 >= offset {
            return Err(RangeCheckError::ValueOutOfRange);
        }
        Ok((offset + value as u64) as usize)
    }

    /// Records one request that `value < 2^max_bits`.
    pub fn add_count(&mut self, value: u32, max_bits: usize) -> (r: Result<(), RangeCheckError>)
        requires
            old(self).wf(),
        ensures
            final(self).wf(),
            final(self).spec_bus() == old(self).spec_bus(),
            final(self).max_bits() == old(self).max_bits(),
            max_bits > old(self).max_bits() ==> r == Err::<(), _>(RangeCheckError::BitsExceeded),
            max_bits <= old(self).max_bits() && value >= pow2(max_bits as nat) ==> r == Err::<(), _>(
                RangeCheckError::ValueOutOfRange,
            ),
            valid_check(value as int, max_bits as nat, old(self).max_bits()) ==> {
                let idx = count_index(value as int, max_bits as nat);
                &&& old(self).counts()[idx] == u32::MAX ==> r == Err::<(), _>(
                    RangeCheckError::CountOverflow,
                )
                &&& old(self).counts()[idx] < u32::MAX ==> r is Ok
            },
            r is Ok ==> {
                let idx = count_index(value as int, max_bits as nat);
                &&& final(self).counts() == old(self).counts().update(
                    idx,
                    (old(self).counts()[idx] + 1) as u32,
                )
                &&& final(self).requests() == old(self).requests().push((value, max_bits))
            },
            r is Err ==> final(self).counts() == old(self).counts() && final(self).requests()
                == old(self).requests(),
    {
        if max_bits > self.air.bus.range_max_bits {
            return Err(RangeCheckError::BitsExceeded);
        }
        let bits = max_bits as u64;
        proof {
            lemma_u64_pow2_no_overflow(bits as nat);
            assert(1 * pow2(bits as nat) == pow2(bits as nat));
            lemma_u64_shl_is_mul(1, bits);
            lemma_pow2_strictly_increases(bits as nat, 31);
            vstd::arithmetic::power2::lemma2_to64();
            vstd::arithmetic::power2::lemma_pow2_unfold(bits as nat + 1);
            if bits < self.max_bits() {
                lemma_pow2_strictly_increases(bits as nat + 1, self.max_bits() + 1);
            }
        }
        let offset = 1u64 << bits;
        if value as u64 >= offset {
            return Err(RangeCheckError::ValueOutOfRange);
        }
        let idx = (offset + value as u64) as usize;
        let current = self.count[idx];
        if current == u32::MAX {
            return Err(RangeCheckError::CountOverflow);
        }
        let ghost before = self.count@;
        self.count.set(idx, current + 1);
        proof {
            lemma_count_total_update(before, idx as int, (current + 1) as u32);
            self.requests@ = self.requests@.push((value, max_bits));
            assert forall|k: int| 0 <= k < self.requests@.len() implies {
                let (v, b) = #[trigger] self.requests@[k];
                valid_check(v as int, b as nat, self.max_bits())
            } by {
                if k < self.requests@.len() - 1 {
                    assert(self.requests@[k] == old(self).requests@[k]);
                }
            }
            assert(self.requests@.drop_last() =~= old(self).requests@);
            assert forall|i: int| 0 <= i < self.count@.len() implies #[trigger] self.count@[i]
                == request_count(self.requests@, i) by {
                assert(old(self).count@[i] == request_count(old(self).requests@, i));
            }
        }
        Ok(())
    }

    /// Resets every counter to zero, keeping the table's size, so that a new
    /// proving pass starts from an empty table.
    pub fn clear(&mut self)
        requires
            old(self).wf(),
        ensures
            final(self).wf(),
            final(self).spec_bus() == old(self).spec_bus(),
            final(self).max_bits() == old(self).max_bits(),
            final(self).counts() == Seq::new(old(self).counts().len(), |i: int| 0u32),
            final(self).requests().len() == 0,
    {
        let n = self.count.len();
        let mut i: usize = 0;
        while i < n
            invariant
                i <= n,
                n == self.count@.len(),
                self.air == old(self).air,
                self.count@.len() == old(self).count@.len(),
                forall|j: int| 0 <= j < i ==> self.count@[j] == 0u32,
            decreases n - i,
        {
            self.count.set(i, 0);
            i += 1;
        }
        proof {
            assert(self.count@ =~= Seq::new(n as nat, |i: int| 0u32));
            lemma_count_total_zeros(n as nat);
            self.requests@ = Seq::empty();
        }
    }
}

/// Range-check completeness: the counter of every valid (value, width) pair is
/// exactly the number of accepted requests for that pair, so every requested
/// pair has a non-zero counter; the padding entry 0 stays zero; and the
/// counters add up to the number of accepted requests.
pub proof fn lemma_range_check_complete(chip: &VariableRangeCheckerChip)
    requires
        chip.wf(),
    ensures
        count_total(chip.counts()) == chip.requests().len(),
        chip.counts()[0] == 0,
        forall|v: int, b: nat|
            b <= chip.max_bits() && 0 <= v < pow2(b) ==> chip.counts()[#[trigger] count_index(v, b)]
                == pair_count(chip.requests(), v, b),
        forall|k: int|
            0 <= k < chip.requests().len() ==> {
                let (v, b) = #[trigger] chip.requests()[k];
                &&& v < pow2(b as nat)
                &&& chip.counts()[count_index(v as int, b as nat)] >= 1
            },
{
    chip.lemma_wf_bits();
    let reqs = chip.requests();
    assert forall|k: int| 0 <= k < reqs.len() implies (#[trigger] reqs[k]).0 < pow2(reqs[k].1 as nat) by {
        assert(valid_check(reqs[k].0 as int, reqs[k].1 as nat, chip.max_bits()));
    }
    vstd::arithmetic::power2::lemma_pow2_pos(chip.max_bits() + 1);
    vstd::arithmetic::power2::lemma_pow2_pos(0);
    lemma_request_count_pairs(reqs, 0, 0);
    assert(chip.counts()[0] == request_count(reqs, 0));
    assert forall|v: int, b: nat| b <= chip.max_bits() && 0 <= v < pow2(b) implies chip.counts()[
        #[trigger] count_index(v, b)] == pair_count(reqs, v, b) by {
        vstd::arithmetic::power2::lemma_pow2_unfold(b + 1);
        if b < chip.max_bits() {
            lemma_pow2_strictly_increases(b + 1, chip.max_bits() + 1);
        }
        lemma_request_count_pairs(reqs, v, b);
    }
    assert forall|k: int| 0 <= k < reqs.len() implies {
        let (v, b) = #[trigger] reqs[k];
        &&& v < pow2(b as nat)
        &&& chip.counts()[count_index(v as int, b as nat)] >= 1
    } by {
        let (v, b) = reqs[k];
        assert(valid_check(v as int, b as nat, chip.max_bits()));
        vstd::arithmetic::power2::lemma_pow2_unfold(b as nat + 1);
        if b < chip.max_bits() {
            lemma_pow2_strictly_increases(b as nat + 1, chip.max_bits() + 1);
        }
        lemma_request_count_member(reqs, k);
    }
}

} // verus!
