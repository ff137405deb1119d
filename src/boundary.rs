use vstd::prelude::*;

use crate::controller::{cell_of, last_value, log_consistent, log_view, AccessRecord, AccessView};
use crate::memory::{cell_value, copy_word};
use crate::offline_checker::{
    cell_less, entry_consistent, expected_before, is_rearrangement, key_less, lemma_log_timestamps,
    lemma_round_trip, lemma_source_index, lemma_target_index, sorted_by_key,
};

verus! {

/// One row of the boundary table: a cell the segment accessed, the word it held
/// when the segment started, and the word and timestamp of its last access.
#[derive(Clone, Debug)]
pub struct BoundaryRow {
    pub address_space: u32,
    pub pointer: u32,
    pub initial_data: Vec<u32>,
    pub final_data: Vec<u32>,
    pub final_timestamp: u64,
}

pub open spec fn row_cell(r: BoundaryRow) -> (u32, u32) {
    (r.address_space, r.pointer)
}

/// Entry `f` is the first and entry `l` the last entry of cell `c` in `s`.
pub open spec fn cell_span(s: Seq<AccessView>, c: (u32, u32), f: int, l: int) -> bool {
    &&& 0 <= f <= l < s.len()
    &&& cell_of(s[f]) == c
    &&& cell_of(s[l]) == c
    &&& forall|k: int| 0 <= k < f ==> cell_of(#[trigger] s[k]) != c
    &&& forall|k: int| l < k < s.len() ==> cell_of(#[trigger] s[k]) != c
}

/// `row` takes its initial word from the first entry of its cell in `s`, and
/// its final word and timestamp from the last one.
pub open spec fn row_matches(s: Seq<AccessView>, row: BoundaryRow) -> bool {
    exists|f: int, l: int|
        #[trigger] cell_span(s, row_cell(row), f, l) && row.initial_data@ == s[f].prev_data
            && row.final_data@ == s[l].data && row.final_timestamp == s[l].timestamp
}

/// Some row of `rows` is for cell `c`.
pub open spec fn has_row(rows: Seq<BoundaryRow>, c: (u32, u32)) -> bool {
    exists|j: int| 0 <= j < rows.len() && row_cell(#[trigger] rows[j]) == c
}

/// The boundary table of a sorted view: one row per cell, in cell order.
pub open spec fn boundary_of(s: Seq<AccessView>, rows: Seq<BoundaryRow>) -> bool {
    &&& forall|j: int| 0 <= j < rows.len() ==> row_matches(s, #[trigger] rows[j])
    &&& forall|a: int, b: int|
        0 <= a < b < rows.len() ==> cell_less(row_cell(#[trigger] rows[a]), row_cell(#[trigger] rows[b]))
    &&& forall|k: int| 0 <= k < s.len() ==> #[trigger] has_row(rows, cell_of(s[k]))
}

/// In a sorted view, the entries of one cell are contiguous.
proof fn lemma_contiguous(s: Seq<AccessView>, a: int, j: int, b: int)
    requires
        sorted_by_key(s),
        0 <= a < j < b < s.len(),
        cell_of(s[a]) == cell_of(s[b]),
    ensures
        cell_of(s[j]) == cell_of(s[a]),
{
    assert(key_less(s[a], s[j]));
    assert(key_less(s[j], s[b]));
}

/// The boundary table of a sorted view.
pub fn boundary_table(sorted: &Vec<AccessRecord>) -> (r: Vec<BoundaryRow>)
    requires
        sorted_by_key(log_view(sorted@)),
    ensures
        boundary_of(log_view(sorted@), r@),
{
    let ghost s = log_view(sorted@);
    let n = sorted.len();
    let mut rows: Vec<BoundaryRow> = Vec::new();
    if n == 0 {
        return rows;
    }
    let mut first: usize = 0;
    let mut k: usize = 0;
    while k < n
        invariant
            n == sorted@.len(),
            s == log_view(sorted@),
            sorted_by_key(s),
            first <= k <= n,
            k < n ==> first < n && (first == 0 || cell_of(s[first - 1]) != cell_of(s[first as int])),
            k < n ==> forall|j: int| first <= j <= k ==> cell_of(#[trigger] s[j]) == cell_of(s[first as int]),
            k == n ==> first == n,
            forall|j: int| 0 <= j < rows@.len() ==> row_matches(s, #[trigger] rows@[j]),
            forall|a: int, b: int|
                0 <= a < b < rows@.len() ==> cell_less(row_cell(#[trigger] rows@[a]), row_cell(#[trigger] rows@[b])),
            forall|j: int| 0 <= j < rows@.len() ==> cell_less(row_cell(#[trigger] rows@[j]), cell_of(s[first as int]))
                || first == n,
            forall|j: int| 0 <= j < first ==> #[trigger] has_row(rows@, cell_of(s[j])),
        decreases n - k,
    {
        let e = &sorted[k];
        let ends = k + 1 == n || sorted[k + 1].address_space != e.address_space
            || sorted[k + 1].pointer != e.pointer;
        if ends {
            let ghost c = cell_of(s[k as int]);
            let row = BoundaryRow {
                address_space: e.address_space,
                pointer: e.pointer,
                initial_data: copy_word(&sorted[first].prev_data),
                final_data: copy_word(&e.data),
                final_timestamp: e.timestamp,
            };
            proof {
                assert(s[k as int] == sorted@[k as int]@);
                assert(s[first as int] == sorted@[first as int]@);
                assert forall|j: int| 0 <= j < first implies cell_of(#[trigger] s[j]) != c by {
                    if cell_of(s[j]) == c && first > 0 {
                        if j < first - 1 {
                            lemma_contiguous(s, j, first - 1, first as int);
                        }
                    }
                }
                assert forall|j: int| k < j < s.len() implies cell_of(#[trigger] s[j]) != c by {
                    if cell_of(s[j]) == c {
                        if j > k + 1 {
                            lemma_contiguous(s, k as int, k + 1, j);
                        }
                    }
                }
                assert(cell_span(s, c, first as int, k as int));
                assert(row_cell(row) == c);
                assert(row.initial_data@ == s[first as int].prev_data);
                assert(row.final_data@ == s[k as int].data);
            }
            let ghost old_rows = rows@;
            let ghost gr = row;
            rows.push(row);
            proof {
                let r = rows@;
                assert(r[r.len() - 1] == gr);
                assert(cell_span(s, row_cell(gr), first as int, k as int));
                assert(row_matches(s, r[r.len() - 1]));
                assert forall|j: int| 0 <= j < r.len() implies row_matches(s, #[trigger] r[j]) by {
                    if j < old_rows.len() {
                        assert(r[j] == old_rows[j]);
                    }
                }
                assert forall|a: int, b: int| 0 <= a < b < r.len() implies cell_less(
                    row_cell(#[trigger] r[a]),
                    row_cell(#[trigger] r[b]),
                ) by {
                    assert(r[a] == old_rows[a]);
                    if b < old_rows.len() {
                        assert(r[b] == old_rows[b]);
                    }
                }
                assert forall|j: int| 0 <= j < k + 1 implies #[trigger] has_row(r, cell_of(s[j])) by {
                    if j < first {
                        assert(has_row(old_rows, cell_of(s[j])));
                        let w = choose|w: int| 0 <= w < old_rows.len() && row_cell(#[trigger] old_rows[w]) == cell_of(s[j]);
                        assert(r[w] == old_rows[w]);
                    } else {
                        assert(row_cell(r[r.len() - 1]) == cell_of(s[j]));
                    }
                }
                if k + 1 < n {
                    assert(key_less(s[k as int], s[k + 1]));
                    assert forall|j: int| 0 <= j < r.len() implies cell_less(row_cell(#[trigger] r[j]), cell_of(s[k + 1])) by {
                        if j < old_rows.len() {
                            assert(r[j] == old_rows[j]);
                        }
                    }
                }
            }
            first = k + 1;
        }
        k += 1;
    }
    rows
}

/// The boundary table of a consistent log records, for every cell the segment
/// accessed, the word the cell held at the start and the word it holds at the
/// end.
pub proof fn lemma_boundary_values(
    init: Map<(u32, u32), Seq<u32>>,
    word_size: nat,
    start: int,
    log: Seq<AccessView>,
    sorted: Seq<AccessView>,
    row: BoundaryRow,
)
    requires
        log_consistent(init, word_size, start, log),
        is_rearrangement(log, sorted),
        sorted_by_key(sorted),
        row_matches(sorted, row),
    ensures
        row.initial_data@ == cell_value(init, word_size, row_cell(row)),
        row.final_data@ == last_value(init, word_size, log, row_cell(row)),
{
    let c = row_cell(row);
    let (f, l) = choose|f: int, l: int|
        #[trigger] cell_span(sorted, c, f, l) && row.initial_data@ == sorted[f].prev_data
            && row.final_data@ == sorted[l].data && row.final_timestamp == sorted[l].timestamp;
    lemma_round_trip(init, word_size, start, log, sorted);
    assert(entry_consistent(init, word_size, sorted, f));
    if f > 0 {
        assert(cell_of(sorted[f - 1]) != c);
    }
    assert(expected_before(init, word_size, sorted, f) == cell_value(init, word_size, c));
    let i = lemma_source_index(log, sorted, l);
    assert forall|m: int| i < m < log.len() implies cell_of(#[trigger] log[m]) != c by {
        if cell_of(log[m]) == c {
            let q = lemma_target_index(log, sorted, m);
            lemma_log_timestamps(init, word_size, start, log, m, i);
            assert(key_less(sorted[l], sorted[q]));
            if q < l {
                assert(key_less(sorted[q], sorted[l]));
            }
            if q == l {
                assert(sorted[q] == sorted[l]);
            }
        }
    }
    crate::offline_checker::lemma_last_value_at(init, word_size, log, log.len() as int, i, c);
    assert(log.take(log.len() as int) =~= log);
}

} // verus!
