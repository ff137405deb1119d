use vm_memory::range_checker::{
    RangeCheckError, VariableRangeCheckerBus, VariableRangeCheckerChip, NUM_VARIABLE_RANGE_COLS,
};

fn chip(bits: usize) -> VariableRangeCheckerChip {
    VariableRangeCheckerChip::new(VariableRangeCheckerBus::new(3, bits))
}

#[test]
fn repeated_check_counts_twice() {
    let mut c = chip(8);
    assert_eq!(c.add_count(15, 4), Ok(()));
    assert_eq!(c.add_count(15, 4), Ok(()));
    assert_eq!(c.count_at(31), 2);
    assert_eq!(c.count_at(30), 0);
}

#[test]
fn table_size_and_accessors() {
    let c = chip(8);
    assert_eq!(c.num_rows(), 512);
    assert_eq!(c.range_max_bits(), 8);
    assert_eq!(c.bus(), VariableRangeCheckerBus::new(3, 8));
    assert_eq!(c.air_width(), NUM_VARIABLE_RANGE_COLS);
}

#[test]
fn widths_do_not_collide() {
    let mut c = chip(8);
    c.add_count(0, 0).unwrap();
    c.add_count(1, 1).unwrap();
    c.add_count(3, 2).unwrap();
    c.add_count(255, 8).unwrap();
    assert_eq!(c.count_at(1), 1);
    assert_eq!(c.count_at(3), 1);
    assert_eq!(c.count_at(7), 1);
    assert_eq!(c.count_at(511), 1);
    assert_eq!(c.counts_vec().iter().map(|&x| x as u64).sum::<u64>(), 4);
}

#[test]
fn bits_above_ceiling_are_refused() {
    let mut c = chip(8);
    assert_eq!(c.add_count(1, 9), Err(RangeCheckError::BitsExceeded));
    assert_eq!(c.counts_vec().iter().map(|&x| x as u64).sum::<u64>(), 0);
}

#[test]
fn value_out_of_range_is_refused() {
    let mut c = chip(8);
    assert_eq!(c.add_count(16, 4), Err(RangeCheckError::ValueOutOfRange));
    assert_eq!(c.add_count(256, 8), Err(RangeCheckError::ValueOutOfRange));
}

#[test]
fn clear_resets_counts() {
    let mut c = chip(4);
    c.add_count(5, 3).unwrap();
    c.add_count(5, 3).unwrap();
    c.clear();
    assert_eq!(c.num_rows(), 32);
    assert!(c.counts_vec().iter().all(|&x| x == 0));
    c.add_count(5, 3).unwrap();
    assert_eq!(c.count_at(13), 1);
}

#[test]
fn trace_lists_each_pair_with_its_count() {
    let mut c = chip(3);
    c.add_count(5, 3).unwrap();
    c.add_count(5, 3).unwrap();
    c.add_count(1, 1).unwrap();
    let rows = c.generate_trace();
    assert_eq!(rows.len(), 16);
    assert_eq!((rows[0].value, rows[0].max_bits, rows[0].mult), (0, 0, 0));
    assert_eq!((rows[1].value, rows[1].max_bits), (0, 0));
    assert_eq!((rows[3].value, rows[3].max_bits, rows[3].mult), (1, 1, 1));
    assert_eq!((rows[13].value, rows[13].max_bits, rows[13].mult), (5, 3, 2));
    assert_eq!((rows[15].value, rows[15].max_bits), (7, 3));
}

#[test]
fn request_index_matches_counter_position() {
    let c = chip(8);
    assert_eq!(c.request_index(15, 4), Ok(31));
    assert_eq!(c.request_index(0, 0), Ok(1));
    assert_eq!(c.request_index(16, 4), Err(RangeCheckError::ValueOutOfRange));
    assert_eq!(c.request_index(0, 9), Err(RangeCheckError::BitsExceeded));
}
