use vm_memory::assert_sorted::AssertSortedAir;
use vm_memory::is_less_than_tuple::{ComparatorError, IsLessThanTupleAir};
use vm_memory::range_checker::{VariableRangeCheckerBus, VariableRangeCheckerChip};

fn setup() -> (VariableRangeCheckerBus, VariableRangeCheckerChip) {
    let bus = VariableRangeCheckerBus::new(0, 8);
    (bus, VariableRangeCheckerChip::new(bus))
}

#[test]
fn tuple_less_on_top_limb() {
    let (bus, mut rc) = setup();
    let air = IsLessThanTupleAir::new(bus, vec![4, 4]).unwrap();
    let (less, aux) = air.generate(&vec![3, 0], &vec![3, 1], &mut rc).unwrap();
    assert!(less);
    assert_eq!(aux.diff_index, 1);
    assert_eq!(aux.diff, 0);
    assert!(air.eval(&vec![3, 0], &vec![3, 1], true, &aux));
    assert!(!air.eval(&vec![3, 0], &vec![3, 1], false, &aux));
    let (less, aux) = air.generate(&vec![3, 1], &vec![3, 0], &mut rc).unwrap();
    assert!(!less);
    assert!(air.eval(&vec![3, 1], &vec![3, 0], false, &aux));
    // one range check of the difference 0 against 4 bits per comparison
    assert_eq!(rc.count_at(16), 2);
}

#[test]
fn equal_tuples_are_not_less() {
    let (bus, mut rc) = setup();
    let air = IsLessThanTupleAir::new(bus, vec![4, 4, 4]).unwrap();
    let (less, aux) = air.generate(&vec![1, 2, 3], &vec![1, 2, 3], &mut rc).unwrap();
    assert!(!less);
    assert_eq!(aux.diff_index, 3);
    assert!(air.eval(&vec![1, 2, 3], &vec![1, 2, 3], false, &aux));
    assert!(rc.counts_vec().iter().all(|&x| x == 0));
}

#[test]
fn lower_limbs_only_break_ties() {
    let (bus, mut rc) = setup();
    let air = IsLessThanTupleAir::new(bus, vec![8, 2]).unwrap();
    let (less, aux) = air.generate(&vec![200, 1], &vec![5, 2], &mut rc).unwrap();
    assert!(less);
    assert_eq!(aux.diff_index, 1);
    assert_eq!(aux.diff, 0);
    let (less, aux) = air.generate(&vec![9, 2], &vec![5, 2], &mut rc).unwrap();
    assert!(!less);
    assert_eq!(aux.diff_index, 0);
    assert_eq!(aux.diff, 3);
}

#[test]
fn empty_tuple_is_rejected() {
    let bus = VariableRangeCheckerBus::new(0, 8);
    assert_eq!(IsLessThanTupleAir::new(bus, vec![]).err(), Some(ComparatorError::EmptyTuple));
    assert_eq!(AssertSortedAir::new(bus, vec![]).err(), Some(ComparatorError::EmptyTuple));
}

#[test]
fn limb_wider_than_table_is_rejected() {
    let bus = VariableRangeCheckerBus::new(0, 8);
    assert_eq!(
        IsLessThanTupleAir::new(bus, vec![4, 9]).err(),
        Some(ComparatorError::LimbTooWide)
    );
}

#[test]
fn sorted_keys_pass_and_unsorted_are_found() {
    let (bus, mut rc) = setup();
    let air = AssertSortedAir::new(bus, vec![4, 4]).unwrap();
    let keys = vec![vec![1, 0], vec![0, 1], vec![2, 1], vec![0, 3]];
    let rows = air.generate_trace(&keys, &mut rc).unwrap().unwrap();
    assert_eq!(rows.len(), 4);
    assert!(air.eval(&keys, &rows));
    let bad = vec![vec![1, 0], vec![0, 3], vec![2, 1]];
    assert_eq!(air.generate_trace(&bad, &mut rc).unwrap(), Err(1));
    let mut forged = rows.clone();
    forged[0].aux.diff = 5;
    assert!(!air.eval(&keys, &forged));
}
