use vstd::arithmetic::power2::pow2;
use vstd::prelude::*;

use crate::assert_sorted::{
    keys_view, lemma_sorted_trace_sound, order_requests, sorted_trace_holds, AssertSortedAir,
    AssertSortedRow,
};
use crate::controller::{
    access_consistent, cell_of, last_value, log_consistent, log_view, AccessKind, AccessRecord,
    AccessView, MemoryController,
};
use crate::is_less_than_tuple::{fits_bits, limbs_fit, tuple_less, ComparatorError};
use crate::memory::{cell_value, copy_word, MemoryConfig, MemoryImage};
use crate::range_checker::{
    counters_have_room, RangeCheckError, VariableRangeCheckerBus, VariableRangeCheckerChip,
};

verus! {

/// Order of the sort key (address space, pointer, timestamp).
pub open spec fn key_less(a: AccessView, b: AccessView) -> bool {
    ||| a.address_space < b.address_space
    ||| a.address_space == b.address_space && a.pointer < b.pointer
    ||| a.address_space == b.address_space && a.pointer == b.pointer && a.timestamp < b.timestamp
}

/// Keys strictly increase along `s`.
pub open spec fn sorted_by_key(s: Seq<AccessView>) -> bool {
    forall|a: int, b: int| 0 <= a < b < s.len() ==> key_less(#[trigger] s[a], #[trigger] s[b])
}

/// Entry `q` of `s` is an entry of `log`.
pub open spec fn has_source(log: Seq<AccessView>, s: Seq<AccessView>, q: int) -> bool {
    exists|i: int| 0 <= i < log.len() && #[trigger] log[i] == s[q]
}

/// Entry `i` of `log` is an entry of `s`.
pub open spec fn has_target(log: Seq<AccessView>, s: Seq<AccessView>, i: int) -> bool {
    exists|q: int| 0 <= q < s.len() && log[i] == #[trigger] s[q]
}

/// `s` is as long as `log` and each holds every entry of the other; for a log
/// whose timestamps differ, `s` is a reordering of it.
pub open spec fn is_rearrangement(log: Seq<AccessView>, s: Seq<AccessView>) -> bool {
    &&& s.len() == log.len()
    &&& forall|q: int| 0 <= q < s.len() ==> #[trigger] has_source(log, s, q)
    &&& forall|i: int| 0 <= i < log.len() ==> #[trigger] has_target(log, s, i)
}

/// Timestamps strictly increase along the log.
pub open spec fn timestamps_increasing(log: Seq<AccessView>) -> bool {
    forall|i: int, j: int| 0 <= i < j < log.len() ==> (#[trigger] log[i]).timestamp < (#[trigger] log[j]).timestamp
}

/// What entry `k` of the sorted view must have seen in its cell: the word of
/// the entry before it when that entry is of the same cell, else the word the
/// cell held initially.
pub open spec fn expected_before(
    init: Map<(u32, u32), Seq<u32>>,
    word_size: nat,
    s: Seq<AccessView>,
    k: int,
) -> Seq<u32> {
    if k > 0 && cell_of(s[k - 1]) == cell_of(s[k]) {
        s[k - 1].data
    } else {
        cell_value(init, word_size, cell_of(s[k]))
    }
}

/// The consistency rule on entry `k` of a sorted view: a read returns, and any
/// access saw, what the cell held before it.
pub open spec fn entry_consistent(
    init: Map<(u32, u32), Seq<u32>>,
    word_size: nat,
    s: Seq<AccessView>,
    k: int,
) -> bool {
    let before = expected_before(init, word_size, s, k);
    &&& s[k].prev_data == before
    &&& s[k].kind == AccessKind::Read ==> s[k].data == before
}

pub open spec fn view_consistent(
    init: Map<(u32, u32), Seq<u32>>,
    word_size: nat,
    s: Seq<AccessView>,
) -> bool {
    forall|k: int| 0 <= k < s.len() ==> #[trigger] entry_consistent(init, word_size, s, k)
}

proof fn lemma_key_order(s: Seq<AccessView>, x: int, y: int)
    requires
        sorted_by_key(s),
        0 <= x < s.len(),
        0 <= y < s.len(),
        key_less(s[x], s[y]),
    ensures
        x < y,
{
    if x > y {
        assert(key_less(s[y], s[x]));
    }
}

/// The cell's value before access `i` is the word of access `j` when `j` is
/// the last access to that cell before `i`.
pub proof fn lemma_last_value_at(
    init: Map<(u32, u32), Seq<u32>>,
    word_size: nat,
    log: Seq<AccessView>,
    i: int,
    j: int,
    c: (u32, u32),
)
    requires
        0 <= j < i <= log.len(),
        cell_of(log[j]) == c,
        forall|m: int| j < m < i ==> cell_of(#[trigger] log[m]) != c,
    ensures
        last_value(init, word_size, log.take(i), c) == log[j].data,
    decreases i,
{
    let t = log.take(i);
    assert(t.drop_last() =~= log.take(i - 1));
    if j < i - 1 {
        assert(cell_of(log[i - 1]) != c);
        lemma_last_value_at(init, word_size, log, i - 1, j, c);
    }
}

/// Before the first access to a cell, it holds its initial word.
pub proof fn lemma_last_value_untouched(
    init: Map<(u32, u32), Seq<u32>>,
    word_size: nat,
    log: Seq<AccessView>,
    i: int,
    c: (u32, u32),
)
    requires
        0 <= i <= log.len(),
        forall|m: int| 0 <= m < i ==> cell_of(#[trigger] log[m]) != c,
    ensures
        last_value(init, word_size, log.take(i), c) == cell_value(init, word_size, c),
    decreases i,
{
    if i > 0 {
        assert(log.take(i).drop_last() =~= log.take(i - 1));
        assert(cell_of(log[i - 1]) != c);
        lemma_last_value_untouched(init, word_size, log, i - 1, c);
    }
}

/// Index in `log` of the entry at position `q` of a rearrangement of it.
pub proof fn lemma_source_index(log: Seq<AccessView>, sorted: Seq<AccessView>, q: int) -> (i: int)
    requires
        is_rearrangement(log, sorted),
        0 <= q < sorted.len(),
    ensures
        0 <= i < log.len(),
        log[i] == sorted[q],
{
    assert(has_source(log, sorted, q));
    choose|i: int| 0 <= i < log.len() && #[trigger] log[i] == sorted[q]
}

/// Position in a rearrangement of `log` of entry `i` of the log.
pub proof fn lemma_target_index(log: Seq<AccessView>, sorted: Seq<AccessView>, i: int) -> (q: int)
    requires
        is_rearrangement(log, sorted),
        0 <= i < log.len(),
    ensures
        0 <= q < sorted.len(),
        log[i] == sorted[q],
{
    assert(has_target(log, sorted, i));
    choose|q: int| 0 <= q < sorted.len() && log[i] == #[trigger] sorted[q]
}

/// Entries `i < j` of a consistent log have increasing timestamps.
pub proof fn lemma_log_timestamps(
    init: Map<(u32, u32), Seq<u32>>,
    word_size: nat,
    start: int,
    log: Seq<AccessView>,
    i: int,
    j: int,
)
    requires
        log_consistent(init, word_size, start, log),
        0 <= i < log.len(),
        0 <= j < log.len(),
    ensures
        log[i].timestamp == start + i,
        log[j].timestamp == start + j,
{
    assert(access_consistent(init, word_size, start, log, i));
    assert(access_consistent(init, word_size, start, log, j));
}

proof fn lemma_round_trip_entry(
    init: Map<(u32, u32), Seq<u32>>,
    word_size: nat,
    start: int,
    log: Seq<AccessView>,
    sorted: Seq<AccessView>,
    k: int,
)
    requires
        log_consistent(init, word_size, start, log),
        is_rearrangement(log, sorted),
        sorted_by_key(sorted),
        0 <= k < sorted.len(),
    ensures
        entry_consistent(init, word_size, sorted, k),
{
    let i = lemma_source_index(log, sorted, k);
    assert(access_consistent(init, word_size, start, log, i));
    let c = cell_of(sorted[k]);
    if k > 0 && cell_of(sorted[k - 1]) == c {
        let j = lemma_source_index(log, sorted, k - 1);
        lemma_log_timestamps(init, word_size, start, log, i, j);
        assert(key_less(sorted[k - 1], sorted[k]));
        assert forall|m: int| j < m < i implies cell_of(#[trigger] log[m]) != c by {
            if cell_of(log[m]) == c {
                let q = lemma_target_index(log, sorted, m);
                lemma_log_timestamps(init, word_size, start, log, m, i);
                lemma_log_timestamps(init, word_size, start, log, m, j);
                lemma_key_order(sorted, k - 1, q);
                lemma_key_order(sorted, q, k);
            }
        }
        lemma_last_value_at(init, word_size, log, i, j, c);
    } else {
        assert forall|m: int| 0 <= m < i implies cell_of(#[trigger] log[m]) != c by {
            if cell_of(log[m]) == c {
                let q = lemma_target_index(log, sorted, m);
                lemma_log_timestamps(init, word_size, start, log, m, i);
                lemma_key_order(sorted, q, k);
                if q < k - 1 {
                    assert(key_less(sorted[q], sorted[k - 1]));
                }
            }
        }
        lemma_last_value_untouched(init, word_size, log, i, c);
    }
}

/// Round trip: sorting a consistent log by (address space, pointer, timestamp)
/// and applying the consistency rule to each entry gives back, for every read,
/// the word the read returned during execution.
pub proof fn lemma_round_trip(
    init: Map<(u32, u32), Seq<u32>>,
    word_size: nat,
    start: int,
    log: Seq<AccessView>,
    sorted: Seq<AccessView>,
)
    requires
        log_consistent(init, word_size, start, log),
        is_rearrangement(log, sorted),
        sorted_by_key(sorted),
    ensures
        view_consistent(init, word_size, sorted),
        forall|k: int|
            0 <= k < sorted.len() && (#[trigger] sorted[k]).kind == AccessKind::Read ==> sorted[k].data
                == expected_before(init, word_size, sorted, k),
{
    assert forall|k: int| 0 <= k < sorted.len() implies #[trigger] entry_consistent(
        init,
        word_size,
        sorted,
        k,
    ) by {
        lemma_round_trip_entry(init, word_size, start, log, sorted, k);
    }
    assert forall|k: int|
        0 <= k < sorted.len() && (#[trigger] sorted[k]).kind == AccessKind::Read implies sorted[k].data
            == expected_before(init, word_size, sorted, k) by {
        assert(entry_consistent(init, word_size, sorted, k));
    }
}

/// Round trip for a controller: whatever reads and writes were issued through
/// it, any sorted view of its log passes the consistency rule, so replaying the
/// view gives back every word a read returned.
pub proof fn lemma_controller_round_trip(c: MemoryController, sorted: Seq<AccessView>)
    requires
        c.wf(),
        is_rearrangement(c.log(), sorted),
        sorted_by_key(sorted),
    ensures
        view_consistent(c.initial_image(), c.word_size(), sorted),
{
    c.lemma_log_facts();
    lemma_round_trip(c.initial_image(), c.word_size(), c.start(), c.log(), sorted);
}

/// Order of cells: by address space, then pointer.
pub open spec fn cell_less(a: (u32, u32), b: (u32, u32)) -> bool {
    a.0 < b.0 || (a.0 == b.0 && a.1 < b.1)
}

/// Sortedness: along a sorted view each key is below the next one, and the
/// (address space, pointer) pair strictly increases wherever the cell changes.
pub proof fn lemma_sorted_adjacent(s: Seq<AccessView>)
    requires
        sorted_by_key(s),
    ensures
        forall|k: int|
            0 <= k < s.len() - 1 ==> {
                &&& key_less(#[trigger] s[k], s[k + 1])
                &&& cell_of(s[k]) != cell_of(s[k + 1]) ==> cell_less(cell_of(s[k]), cell_of(s[k + 1]))
            },
{
    assert forall|k: int| 0 <= k < s.len() - 1 implies key_less(#[trigger] s[k], s[k + 1]) by {
        assert(key_less(s[k], s[k + 1]));
    }
}

pub fn copy_record(r: &AccessRecord) -> (out: AccessRecord)
    ensures
        out@ == r@,
{
    AccessRecord {
        address_space: r.address_space,
        pointer: r.pointer,
        timestamp: r.timestamp,
        kind: r.kind,
        data: copy_word(&r.data),
        prev_data: copy_word(&r.prev_data),
    }
}

pub fn key_lt(a: &AccessRecord, b: &AccessRecord) -> (r: bool)
    ensures
        r == key_less(a@, b@),
{
    a.address_space < b.address_space || (a.address_space == b.address_space && (a.pointer
        < b.pointer || (a.pointer == b.pointer && a.timestamp < b.timestamp)))
}

/// The sorted view of an access log: its entries ordered by (address space,
/// pointer, timestamp).
pub fn sorted_view(log: &Vec<AccessRecord>) -> (r: Vec<AccessRecord>)
    requires
        timestamps_increasing(log_view(log@)),
    ensures
        sorted_by_key(log_view(r@)),
        is_rearrangement(log_view(log@), log_view(r@)),
{
    let ghost lv = log_view(log@);
    let n = log.len();
    let mut sorted: Vec<AccessRecord> = Vec::new();
    let ghost mut pos: Seq<int> = Seq::empty();
    let ghost mut src: Seq<int> = Seq::empty();
    let mut m: usize = 0;
    while m < n
        invariant
            n == log@.len(),
            lv == log_view(log@),
            timestamps_increasing(lv),
            m <= n,
            sorted@.len() == m,
            pos.len() == m,
            src.len() == m,
            sorted_by_key(log_view(sorted@)),
            forall|i: int|
                0 <= i < m ==> 0 <= #[trigger] pos[i] < m && log_view(sorted@)[pos[i]] == lv[i],
            forall|q: int|
                0 <= q < m ==> 0 <= #[trigger] src[q] < m && log_view(sorted@)[q] == lv[src[q]],
        decreases n - m,
    {
        let rec = copy_record(&log[m]);
        let ghost sv = log_view(sorted@);
        let mut q: usize = 0;
        while q < sorted.len() && key_lt(&sorted[q], &rec)
            invariant
                q <= sorted@.len(),
                sv == log_view(sorted@),
                forall|a: int| 0 <= a < q ==> key_less(#[trigger] sv[a], rec@),
            decreases sorted@.len() - q,
        {
            q += 1;
        }
        proof {
            // every entry placed so far has an earlier timestamp than `rec`
            assert forall|a: int| 0 <= a < m implies (#[trigger] sv[a]).timestamp < rec@.timestamp by {
                assert(lv[src[a]] == sv[a]);
                assert(lv[m as int] == rec@);
            }
            if q < m {
                assert(sv[q as int].timestamp < rec@.timestamp);
                assert(key_less(rec@, sv[q as int]));
            }
        }
        sorted.insert(q, rec);
        proof {
            let nv = log_view(sorted@);
            assert(nv =~= sv.insert(q as int, rec@));
            assert forall|a: int, b: int| 0 <= a < b < nv.len() implies key_less(
                #[trigger] nv[a],
                #[trigger] nv[b],
            ) by {
                if b < q {
                    assert(key_less(sv[a], sv[b]));
                } else if b == q {
                } else if a < q {
                    assert(key_less(sv[a], sv[b - 1]));
                } else if a == q {
                    if b - 1 > q {
                        assert(key_less(sv[q as int], sv[b - 1]));
                    }
                } else {
                    assert(key_less(sv[a - 1], sv[b - 1]));
                }
            }
            let new_pos = Seq::new(
                (m + 1) as nat,
                |i: int|
                    if i == m {
                        q as int
                    } else if pos[i] < q {
                        pos[i]
                    } else {
                        pos[i] + 1
                    },
            );
            let new_src = src.insert(q as int, m as int);
            assert forall|i: int| 0 <= i < m + 1 implies 0 <= #[trigger] new_pos[i] < m + 1
                && nv[new_pos[i]] == lv[i] by {
                if i < m {
                    assert(log_view(sorted@)[new_pos[i]] == sv[pos[i]]);
                }
            }
            assert forall|a: int| 0 <= a < m + 1 implies 0 <= #[trigger] new_src[a] < m + 1
                && nv[a] == lv[new_src[a]] by {
                if a < q {
                    assert(new_src[a] == src[a]);
                } else if a > q {
                    assert(new_src[a] == src[a - 1]);
                }
            }
            pos = new_pos;
            src = new_src;
        }
        m += 1;
    }
    proof {
        let sv = log_view(sorted@);
        assert(sv.len() == lv.len());
        assert forall|q: int| 0 <= q < sv.len() implies #[trigger] has_source(lv, sv, q) by {
            assert(lv[src[q]] == sv[q]);
        }
        assert forall|i: int| 0 <= i < lv.len() implies #[trigger] has_target(lv, sv, i) by {
            assert(sv[pos[i]] == lv[i]);
        }
    }
    sorted
}

/// Applies the consistency rule to every entry of a sorted view.
pub fn check_consistency(sorted: &Vec<AccessRecord>, initial: &MemoryImage) -> (r: bool)
    requires
        initial.wf(),
    ensures
        r == view_consistent(initial.image(), initial.word_size(), log_view(sorted@)),
{
    let ghost sv = log_view(sorted@);
    let ghost init = initial.image();
    let ghost ws = initial.word_size();
    let n = sorted.len();
    let mut k: usize = 0;
    while k < n
        invariant
            n == sorted@.len(),
            sv == log_view(sorted@),
            init == initial.image(),
            ws == initial.word_size(),
            initial.wf(),
            k <= n,
            forall|j: int| 0 <= j < k ==> #[trigger] entry_consistent(init, ws, sv, j),
        decreases n - k,
    {
        let e = &sorted[k];
        let same_cell = k > 0 && sorted[k - 1].address_space == e.address_space
            && sorted[k - 1].pointer == e.pointer;
        let before = if same_cell {
            copy_word(&sorted[k - 1].data)
        } else {
            initial.get(e.address_space, e.pointer)
        };
        assert(before@ == expected_before(init, ws, sv, k as int));
        let ok = words_equal(&e.prev_data, &before) && (e.kind == AccessKind::Write || words_equal(
            &e.data,
            &before,
        ));
        if !ok {
            assert(!entry_consistent(init, ws, sv, k as int));
            return false;
        }
        k += 1;
    }
    true
}

pub fn words_equal(a: &Vec<u32>, b: &Vec<u32>) -> (r: bool)
    ensures
        r == (a@ == b@),
{
    if a.len() != b.len() {
        return false;
    }
    let mut i: usize = 0;
    while i < a.len()
        invariant
            a@.len() == b@.len(),
            i <= a@.len(),
            forall|j: int| 0 <= j < i ==> a@[j] == b@[j],
        decreases a@.len() - i,
    {
        if a[i] != b[i] {
            return false;
        }
        i += 1;
    }
    assert(a@ =~= b@);
    true
}

/// The sort key of an entry as limbs, least significant first:
/// timestamp, pointer, address space.
pub open spec fn key_limbs(a: AccessView) -> Seq<u32> {
    seq![a.timestamp as u32, a.pointer, a.address_space]
}

/// Comparing key limbs is comparing sort keys, for timestamps that fit in a limb.
pub proof fn lemma_key_limbs_order(a: AccessView, b: AccessView)
    requires
        a.timestamp <= u32::MAX,
        b.timestamp <= u32::MAX,
    ensures
        tuple_less(key_limbs(a), key_limbs(b)) == key_less(a, b),
{
    let x = key_limbs(a);
    let y = key_limbs(b);
    assert(x.drop_last() =~= seq![a.timestamp as u32, a.pointer]);
    assert(y.drop_last() =~= seq![b.timestamp as u32, b.pointer]);
    assert(x.drop_last().drop_last() =~= seq![a.timestamp as u32]);
    assert(y.drop_last().drop_last() =~= seq![b.timestamp as u32]);
    assert(x.drop_last().drop_last().drop_last() =~= Seq::<u32>::empty());
    assert(y.drop_last().drop_last().drop_last() =~= Seq::<u32>::empty());
    reveal_with_fuel(tuple_less, 4);
}

/// Every timestamp, pointer and address space of `s` fits its limb.
pub open spec fn keys_in_bounds(s: Seq<AccessView>, bits: Seq<usize>) -> bool {
    forall|i: int|
        0 <= i < s.len() ==> {
            &&& (#[trigger] s[i]).timestamp < pow2(bits[0] as nat)
            &&& s[i].pointer < pow2(bits[1] as nat)
            &&& s[i].address_space < pow2(bits[2] as nat)
        }
}

/// A consistent log has increasing timestamps.
pub proof fn lemma_consistent_timestamps(
    init: Map<(u32, u32), Seq<u32>>,
    word_size: nat,
    start: int,
    log: Seq<AccessView>,
)
    requires
        log_consistent(init, word_size, start, log),
    ensures
        timestamps_increasing(log),
{
    assert forall|i: int, j: int| 0 <= i < j < log.len() implies (#[trigger] log[i]).timestamp < (
    #[trigger] log[j]).timestamp by {
        lemma_log_timestamps(init, word_size, start, log, i, j);
    }
}

/// The key limbs of every entry of a view.
pub open spec fn view_keys(s: Seq<AccessView>) -> Seq<Seq<u32>> {
    s.map_values(|a: AccessView| key_limbs(a))
}

proof fn lemma_adjacent_to_sorted(s: Seq<AccessView>, a: int, b: int)
    requires
        forall|k: int| 0 <= k < s.len() - 1 ==> key_less(#[trigger] s[k], s[k + 1]),
        0 <= a < b < s.len(),
    ensures
        key_less(s[a], s[b]),
    decreases b - a,
{
    if b > a + 1 {
        lemma_adjacent_to_sorted(s, a, b - 1);
        assert(key_less(s[b - 1], s[b]));
    }
}

/// Soundness of the order rows: a trace whose rows satisfy the comparator's
/// constraints on consecutive key limbs certifies that the view is sorted by
/// (address space, pointer, timestamp).
pub proof fn lemma_order_trace_sound(
    bits: Seq<usize>,
    s: Seq<AccessView>,
    rows: Seq<AssertSortedRow>,
)
    requires
        sorted_trace_holds(bits, view_keys(s), rows),
        forall|i: int| 0 <= i < s.len() ==> (#[trigger] s[i]).timestamp <= u32::MAX,
    ensures
        sorted_by_key(s),
{
    let keys = view_keys(s);
    lemma_sorted_trace_sound(bits, keys, rows);
    assert forall|k: int| 0 <= k < s.len() - 1 implies key_less(#[trigger] s[k], s[k + 1]) by {
        assert(tuple_less(keys[k], keys[k + 1]));
        lemma_key_limbs_order(s[k], s[k + 1]);
    }
    assert forall|a: int, b: int| 0 <= a < b < s.len() implies key_less(
        #[trigger] s[a],
        #[trigger] s[b],
    ) by {
        lemma_adjacent_to_sorted(s, a, b);
    }
}

/// Why the offline check refused a log.
#[derive(Clone, Copy, Debug, PartialEq, Eq, Structural)]
pub enum OfflineCheckError {
    /// A timestamp, pointer or address space does not fit its limb.
    KeyOutOfRange,
    /// Two entries share a sort key, or the timestamps do not increase.
    NotSorted,
    /// An access did not see what the cell held before it.
    Inconsistent,
    /// The lookup table refused a range check.
    RangeCheck(RangeCheckError),
}

/// The offline memory check: sorts the access log by (address space,
/// pointer, timestamp), proves the order row by row with the tuple comparator,
/// and checks that values change only on writes.
#[derive(Clone, Debug)]
pub struct MemoryOfflineChecker {
    pub sorted_air: AssertSortedAir,
}

/// The rows of the offline check: the sorted view and, for each entry, the
/// comparison of its key with the next one.
pub struct OfflineCheckerTrace {
    pub sorted: Vec<AccessRecord>,
    pub order_rows: Vec<AssertSortedRow>,
}

impl MemoryOfflineChecker {
    pub open spec fn wf(&self) -> bool {
        self.sorted_air.wf()
    }

    pub open spec fn limb_bits(&self) -> Seq<usize> {
        self.sorted_air.limb_bits()
    }

    /// A checker for keys within `config`'s bounds, range-checked on `bus`.
    pub fn new(bus: VariableRangeCheckerBus, config: MemoryConfig) -> (r: Result<
        Self,
        ComparatorError,
    >)
        ensures
            r is Ok <==> (config.clk_max_bits <= bus.range_max_bits && config.pointer_max_bits
                <= bus.range_max_bits && config.as_max_bits <= bus.range_max_bits),
            r is Err ==> r == Err::<Self, _>(ComparatorError::LimbTooWide),
            r is Ok ==> r->Ok_0.wf() && r->Ok_0.sorted_air.is_less_than_tuple_air.bus == bus
                && r->Ok_0.limb_bits() == seq![
                config.clk_max_bits,
                config.pointer_max_bits,
                config.as_max_bits,
            ],
    {
        let limb_bits = vec![config.clk_max_bits, config.pointer_max_bits, config.as_max_bits];
        let ghost lb = limb_bits@;
        assert(lb[0] == config.clk_max_bits && lb[1] == config.pointer_max_bits && lb[2]
            == config.as_max_bits);
        match AssertSortedAir::new(bus, limb_bits) {
            Ok(air) => Ok(MemoryOfflineChecker { sorted_air: air }),
            Err(e) => {
                assert(!(config.clk_max_bits <= bus.range_max_bits && config.pointer_max_bits
                    <= bus.range_max_bits && config.as_max_bits <= bus.range_max_bits)) by {
                    if config.clk_max_bits <= bus.range_max_bits && config.pointer_max_bits
                        <= bus.range_max_bits && config.as_max_bits <= bus.range_max_bits {
                        assert(forall|i: int| 0 <= i < lb.len() ==> #[trigger] lb[i] <= bus.range_max_bits);
                    }
                }
                Err(e)
            },
        }
    }

    /// The key limbs of every entry, refusing an entry whose key does not fit.
    fn build_keys(&self, sorted: &Vec<AccessRecord>) -> (r: Option<Vec<Vec<u32>>>)
        requires
            self.wf(),
            self.limb_bits().len() == 3,
        ensures
            keys_in_bounds(log_view(sorted@), self.limb_bits()) && (forall|i: int|
                0 <= i < self.limb_bits().len() ==> #[trigger] self.limb_bits()[i] <= 30) ==> r is Some,
            r matches Some(keys) ==> keys@.len() == sorted@.len() && forall|i: int|
                0 <= i < keys@.len() ==> {
                    &&& (#[trigger] keys@[i])@ == key_limbs(sorted@[i]@)
                    &&& limbs_fit(keys@[i]@, self.limb_bits())
                    &&& sorted@[i].timestamp <= u32::MAX
                },
    {
        let bits = &self.sorted_air.is_less_than_tuple_air.limb_bits;
        let mut keys: Vec<Vec<u32>> = Vec::new();
        let mut i: usize = 0;
        while i < sorted.len()
            invariant
                bits@ == self.limb_bits(),
                bits@.len() == 3,
                i <= sorted@.len(),
                keys@.len() == i,
                forall|j: int|
                    0 <= j < i ==> {
                        &&& (#[trigger] keys@[j])@ == key_limbs(sorted@[j]@)
                        &&& limbs_fit(keys@[j]@, self.limb_bits())
                        &&& sorted@[j].timestamp <= u32::MAX
                    },
            decreases sorted@.len() - i,
        {
            let e = &sorted[i];
            proof {
                if keys_in_bounds(log_view(sorted@), self.limb_bits()) && (forall|i: int|
                    0 <= i < self.limb_bits().len() ==> #[trigger] self.limb_bits()[i] <= 30) {
                    assert(log_view(sorted@)[i as int] == e@);
                    assert(bits@[0] <= 30);
                    vstd::arithmetic::power2::lemma2_to64();
                    if bits@[0] < 30 {
                        vstd::arithmetic::power2::lemma_pow2_strictly_increases(bits@[0] as nat, 30);
                    }
                }
            }
            if e.timestamp > u32::MAX as u64 {
                return None;
            }
            let t = e.timestamp as u32;
            if !fits_bits(t, bits[0]) || !fits_bits(e.pointer, bits[1]) || !fits_bits(
                e.address_space,
                bits[2],
            ) {
                return None;
            }
            let key = vec![t, e.pointer, e.address_space];
            assert(key@ =~= key_limbs(e@));
            keys.push(key);
            i += 1;
        }
        Some(keys)
    }

    /// Runs the offline check on a segment's access log, starting from the
    /// memory the segment started from.
    pub fn generate_trace(
        &self,
        log: &Vec<AccessRecord>,
        initial: &MemoryImage,
        range_checker: &mut VariableRangeCheckerChip,
    ) -> (r: Result<OfflineCheckerTrace, OfflineCheckError>)
        requires
            self.wf(),
            self.limb_bits().len() == 3,
            initial.wf(),
            old(range_checker).wf(),
            old(range_checker).spec_bus() == self.sorted_air.is_less_than_tuple_air.bus,
        ensures
            final(range_checker).wf(),
            final(range_checker).spec_bus() == old(range_checker).spec_bus(),
            !timestamps_increasing(log_view(log@)) ==> r == Err::<OfflineCheckerTrace, _>(
                OfflineCheckError::NotSorted,
            ),
            r matches Ok(t) ==> {
                let sv = log_view(t.sorted@);
                &&& sorted_by_key(sv)
                &&& is_rearrangement(log_view(log@), sv)
                &&& view_consistent(initial.image(), initial.word_size(), sv)
                &&& sorted_trace_holds(self.limb_bits(), view_keys(sv), t.order_rows@)
                &&& final(range_checker).requests() == old(range_checker).requests()
                    + order_requests(self.limb_bits(), t.order_rows@)
            },
            (exists|start: int| log_consistent(initial.image(), initial.word_size(), start, log_view(log@)))
                && keys_in_bounds(log_view(log@), self.limb_bits()) && counters_have_room(
                old(range_checker).counts(),
                log@.len() as int,
            ) ==> r is Ok,
            (exists|start: int| log_consistent(initial.image(), initial.word_size(), start, log_view(log@)))
                && keys_in_bounds(log_view(log@), self.limb_bits()) ==> (r is Ok || r matches Err(
                OfflineCheckError::RangeCheck(_),
            )),
            r == Err::<OfflineCheckerTrace, _>(OfflineCheckError::Inconsistent) ==> forall|
                start: int,
            | !log_consistent(initial.image(), initial.word_size(), start, #[trigger] log_view(log@)),
    {
        let ghost good = (exists|start: int|
            log_consistent(initial.image(), initial.word_size(), start, log_view(log@)))
            && keys_in_bounds(log_view(log@), self.limb_bits());
        proof {
            if good {
                let start = choose|start: int|
                    log_consistent(initial.image(), initial.word_size(), start, log_view(log@));
                lemma_consistent_timestamps(initial.image(), initial.word_size(), start, log_view(log@));
            }
        }
        if !timestamps_ok(log) {
            return Err(OfflineCheckError::NotSorted);
        }
        let sorted = sorted_view(log);
        if !check_consistency(&sorted, initial) {
            proof {
                assert forall|start: int| !log_consistent(
                    initial.image(),
                    initial.word_size(),
                    start,
                    #[trigger] log_view(log@),
                ) by {
                    if log_consistent(initial.image(), initial.word_size(), start, log_view(log@)) {
                        lemma_round_trip(
                            initial.image(),
                            initial.word_size(),
                            start,
                            log_view(log@),
                            log_view(sorted@),
                        );
                    }
                }
            }
            return Err(OfflineCheckError::Inconsistent);
        }
        proof {
            if good {
                let lv = log_view(log@);
                let sv = log_view(sorted@);
                assert forall|i: int| 0 <= i < sv.len() implies {
                    &&& (#[trigger] sv[i]).timestamp < pow2(self.limb_bits()[0] as nat)
                    &&& sv[i].pointer < pow2(self.limb_bits()[1] as nat)
                    &&& sv[i].address_space < pow2(self.limb_bits()[2] as nat)
                } by {
                    let j = lemma_source_index(lv, sv, i);
                }
                assert(self.sorted_air.is_less_than_tuple_air.wf());
                range_checker.lemma_wf_bits();
                assert forall|i: int| 0 <= i < self.limb_bits().len() implies #[trigger] self.limb_bits()[i] <= 30 by {
                    assert(self.sorted_air.is_less_than_tuple_air.limb_bits@[i] <= self.sorted_air.is_less_than_tuple_air.bus.range_max_bits);
                }
            }
        }
        let keys = match self.build_keys(&sorted) {
            Some(k) => k,
            None => {
                return Err(OfflineCheckError::KeyOutOfRange);
            },
        };
        proof {
            let kv = keys_view(keys@);
            let sv = log_view(sorted@);
            assert forall|i: int| 0 <= i < kv.len() - 1 implies tuple_less(#[trigger] kv[i], kv[i + 1]) by {
                assert(kv[i] == key_limbs(sv[i]));
                assert(kv[i + 1] == key_limbs(sv[i + 1]));
                assert(key_less(sv[i], sv[i + 1]));
                lemma_key_limbs_order(sv[i], sv[i + 1]);
            }
        }
        proof {
            assert(keys@.len() == log@.len()) by {
                assert(log_view(sorted@).len() == log_view(log@).len());
            }
        }
        let order_rows = match self.sorted_air.generate_trace(&keys, range_checker) {
            Ok(Ok(rows)) => rows,
            Ok(Err(_)) => {
                return Err(OfflineCheckError::NotSorted);
            },
            Err(e) => {
                return Err(OfflineCheckError::RangeCheck(e));
            },
        };
        proof {
            assert(keys_view(keys@) =~= view_keys(log_view(sorted@)));
        }
        Ok(OfflineCheckerTrace { sorted, order_rows })
    }
}

/// Whether the timestamps of a log strictly increase.
pub fn timestamps_ok(log: &Vec<AccessRecord>) -> (r: bool)
    ensures
        r == timestamps_increasing(log_view(log@)),
{
    let ghost lv = log_view(log@);
    let n = log.len();
    if n == 0 {
        return true;
    }
    let mut i: usize = 1;
    while i < n
        invariant
            n == log@.len(),
            lv == log_view(log@),
            1 <= i <= n,
            forall|a: int, b: int| 0 <= a < b < i ==> (#[trigger] lv[a]).timestamp < (#[trigger] lv[b]).timestamp,
        decreases n - i,
    {
        if log[i - 1].timestamp >= log[i].timestamp {
            assert(!timestamps_increasing(lv)) by {
                assert(lv[i - 1].timestamp >= lv[i as int].timestamp);
            }
            return false;
        }
        proof {
            assert forall|a: int, b: int| 0 <= a < b < i + 1 implies (#[trigger] lv[a]).timestamp < (#[trigger] lv[b]).timestamp by {
                if b == i && a < i - 1 {
                    assert(lv[a].timestamp < lv[i - 1].timestamp);
                }
            }
        }
        i += 1;
    }
    true
}

} // verus!
