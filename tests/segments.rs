use vm_memory::bus::{BusIndexManager, SystemBase};
use vm_memory::columns::{FieldExtensionArithmeticIoCols, Poseidon2VmIoCols, Rv32RdWriteAdapterCols};
use vm_memory::continuation::{ExecutionSegment, SegmentError};
use vm_memory::memory::{MemoryConfig, MemoryError, MemoryImage};
use vm_memory::merkle::{compress, compute_leaf, compute_root, digest};
use vm_memory::offline_checker::{MemoryOfflineChecker, OfflineCheckError};
use vm_memory::range_checker::{VariableRangeCheckerBus, VariableRangeCheckerChip};
use vm_memory::controller::MemoryController;

fn config() -> MemoryConfig {
    MemoryConfig { word_size: 4, as_max_bits: 2, pointer_max_bits: 4, clk_max_bits: 16 }
}

fn bus() -> VariableRangeCheckerBus {
    VariableRangeCheckerBus::new(3, 16)
}

/// Leaf of the memory tree holding `(space, pointer)` for words of 4 elements.
fn leaf_index(space: u32, pointer: u32) -> usize {
    ((space as usize) * 16 + pointer as usize) / 2
}

#[test]
fn compress_mixes_its_inputs() {
    let a = [1u32, 2, 3, 4, 5, 6, 7, 8];
    let b = [0u32; 8];
    let x = compress(&a, &b);
    let y = compress(&b, &a);
    assert_ne!(x, a);
    assert_ne!(x, b);
    assert_ne!(x, y);
    assert_eq!(x, compress(&a, &b));
    assert!(x.iter().all(|&v| v < 2013265921));
}

#[test]
fn root_of_two_leaves_is_their_compression() {
    let a = [1u32; 8];
    let b = [2u32; 8];
    assert_eq!(compute_root(&vec![a, b], 1), compress(&a, &b));
    assert_eq!(compute_root(&vec![a], 0), a);
}

#[test]
fn digest_changes_with_memory() {
    let mut image = MemoryImage::new(config()).unwrap();
    let d0 = digest(&image).unwrap();
    image.set(1, 2, vec![1, 2, 3, 4]).unwrap();
    let d1 = digest(&image).unwrap();
    assert_ne!(d0, d1);
    assert_eq!(compute_leaf(&image, leaf_index(1, 2) as u64), [1, 2, 3, 4, 0, 0, 0, 0]);
    assert_eq!(compute_leaf(&image, 31), [0; 8]);
}

#[test]
fn digest_needs_whole_words_per_leaf() {
    let cfg = MemoryConfig { word_size: 3, as_max_bits: 2, pointer_max_bits: 4, clk_max_bits: 16 };
    let image = MemoryImage::new(cfg).unwrap();
    assert_eq!(digest(&image), Err(MemoryError::InvalidConfig));
}

#[test]
fn untouched_chunk_carries_over_between_segments() {
    let start = MemoryImage::new(config()).unwrap();
    let mut s1 = ExecutionSegment::new(start, 0, bus()).unwrap();
    s1.write(1, 2, vec![5, 6, 7, 8]).unwrap();
    s1.write(1, 9, vec![1, 1, 1, 1]).unwrap();
    let r1 = s1.finalize().unwrap();
    let d1 = r1.final_digest.unwrap();

    let mut s2 =
        ExecutionSegment::continue_from(r1.final_memory.duplicate(), &d1, r1.end_timestamp, bus())
            .unwrap();
    s2.write(1, 9, vec![2, 2, 2, 2]).unwrap();
    assert_eq!(s2.read(1, 2).unwrap().data, vec![5, 6, 7, 8]);
    let r2 = s2.finalize().unwrap();
    assert_eq!(r2.initial_digest, Some(d1));
    assert_ne!(r2.final_digest, Some(d1));

    let leaf2 = leaf_index(1, 2) as u64;
    let leaf9 = leaf_index(1, 9) as u64;
    assert_eq!(compute_leaf(&r2.final_memory, leaf2), compute_leaf(&r1.final_memory, leaf2));
    assert_ne!(compute_leaf(&r2.final_memory, leaf9), compute_leaf(&r1.final_memory, leaf9));
}

#[test]
fn wrong_claimed_digest_is_refused() {
    let start = MemoryImage::new(config()).unwrap();
    let mut s1 = ExecutionSegment::new(start, 0, bus()).unwrap();
    s1.write(0, 0, vec![1, 2, 3, 4]).unwrap();
    let r1 = s1.finalize().unwrap();
    let wrong = [0u32; 8];
    let s2 = ExecutionSegment::continue_from(r1.final_memory, &wrong, r1.end_timestamp, bus());
    assert_eq!(s2.err(), Some(SegmentError::DigestMismatch));
}

#[test]
fn segment_finalize_runs_offline_check() {
    let start = MemoryImage::new(config()).unwrap();
    let mut s = ExecutionSegment::new(start, 0, bus()).unwrap();
    s.write(2, 3, vec![1, 2, 3, 4]).unwrap();
    s.read(0, 7).unwrap();
    s.read(2, 3).unwrap();
    s.request_range_check(15, 4).unwrap();
    let r = s.finalize().unwrap();
    assert_eq!(r.log.len(), 3);
    assert_eq!(r.trace.sorted.len(), 3);
    assert_eq!(r.trace.order_rows.len(), 3);
    assert!(r.trace.order_rows[0].less_than_next_key);
    assert!(r.trace.order_rows[1].less_than_next_key);
    assert_eq!(r.range_counts.len(), 1 << 17);
    assert_eq!(r.range_counts[31], 1);
    // one explicit check and one per adjacent pair of the sorted view
    assert_eq!(r.range_counts.iter().map(|&c| c as u64).sum::<u64>(), 3);
    assert_eq!(r.range_counts[0], 0);
    assert_eq!(r.range_trace[31].mult, 1);
    assert_eq!((r.range_trace[31].value, r.range_trace[31].max_bits), (15, 4));
    assert_eq!(r.end_timestamp, 3);
}

#[test]
fn segment_config_errors() {
    let start = MemoryImage::new(config()).unwrap();
    let narrow = VariableRangeCheckerBus::new(3, 8);
    assert!(matches!(ExecutionSegment::new(start.duplicate(), 0, narrow), Err(SegmentError::Comparator(_))));
    let huge = VariableRangeCheckerBus::new(3, 40);
    assert!(matches!(ExecutionSegment::new(start, 0, huge), Err(SegmentError::RangeBitsTooLarge)));
}

#[test]
fn offline_checker_refuses_forged_log() {
    let mut m = MemoryController::new(config()).unwrap();
    m.write(1, 1, vec![1, 2, 3, 4]).unwrap();
    m.read(1, 1).unwrap();
    let mut log = m.access_log().clone();
    log[1].data = vec![4, 3, 2, 1];
    let checker = MemoryOfflineChecker::new(bus(), config()).unwrap();
    let initial = MemoryImage::new(config()).unwrap();
    let mut rc = VariableRangeCheckerChip::new(bus());
    let r = checker.generate_trace(&log, &initial, &mut rc);
    assert_eq!(r.err(), Some(OfflineCheckError::Inconsistent));
}

#[test]
fn bus_indices_are_unique() {
    let mut m = BusIndexManager::new();
    let s = SystemBase::new(&mut m, false).unwrap();
    let ids = [s.execution_bus(), s.memory_bus(), s.program_bus(), s.range_checker_bus()];
    assert_eq!(ids, [0, 1, 2, 3]);
    assert_eq!(m.new_bus_idx(), Some(4));
}

#[test]
fn poseidon2_io_columns_round_trip() {
    let row = Poseidon2VmIoCols::<u32>::blank_row();
    assert_eq!(row.flatten(), vec![0, 0, 0, 0, 0, 0, 0, 1, 1, 0]);
    let direct = Poseidon2VmIoCols::<u32>::direct_io_cols(42);
    let flat = direct.flatten();
    assert_eq!(flat, vec![0, 1, 0, 42, 0, 0, 0, 1, 1, 0]);
    assert_eq!(Poseidon2VmIoCols::<u32>::from_slice(&flat), direct);
    assert_eq!(Poseidon2VmIoCols::<u32>::get_width(), 10);
}

#[test]
fn boundary_rows_hold_initial_and_final_words() {
    let mut start = MemoryImage::new(config()).unwrap();
    start.set(0, 4, vec![9, 9, 9, 9]).unwrap();
    let mut s = ExecutionSegment::new(start, 10, bus()).unwrap();
    s.write(1, 3, vec![1, 2, 3, 4]).unwrap();
    s.read(0, 4).unwrap();
    s.write(0, 4, vec![5, 5, 5, 5]).unwrap();
    s.write(1, 3, vec![6, 6, 6, 6]).unwrap();
    let r = s.finalize().unwrap();
    assert_eq!(r.boundary.len(), 2);
    let b0 = &r.boundary[0];
    assert_eq!((b0.address_space, b0.pointer), (0, 4));
    assert_eq!(b0.initial_data, vec![9, 9, 9, 9]);
    assert_eq!(b0.final_data, vec![5, 5, 5, 5]);
    assert_eq!(b0.final_timestamp, 12);
    let b1 = &r.boundary[1];
    assert_eq!((b1.address_space, b1.pointer), (1, 3));
    assert_eq!(b1.initial_data, vec![0, 0, 0, 0]);
    assert_eq!(b1.final_data, vec![6, 6, 6, 6]);
    assert_eq!(b1.final_timestamp, 13);
    assert_eq!(r.final_memory.get(1, 3), vec![6, 6, 6, 6]);
}

#[test]
fn continue_from_checks_the_range_bus() {
    let start = MemoryImage::new(config()).unwrap();
    let s1 = ExecutionSegment::new(start, 0, bus()).unwrap();
    let r1 = s1.finalize().unwrap();
    let d = r1.final_digest.unwrap();
    let narrow = VariableRangeCheckerBus::new(3, 8);
    let s2 = ExecutionSegment::continue_from(r1.final_memory, &d, r1.end_timestamp, narrow);
    assert!(matches!(s2, Err(SegmentError::Comparator(_))));
}

#[test]
fn segment_range_check_errors() {
    let start = MemoryImage::new(config()).unwrap();
    let mut s = ExecutionSegment::new(start, 0, bus()).unwrap();
    assert_eq!(s.request_range_check(1, 17), Err(vm_memory::range_checker::RangeCheckError::BitsExceeded));
    assert_eq!(s.request_range_check(16, 4), Err(vm_memory::range_checker::RangeCheckError::ValueOutOfRange));
    assert_eq!(s.request_range_check(15, 4), Ok(()));
    let r = s.finalize().unwrap();
    assert_eq!(r.range_counts[31], 1);
    assert_eq!(r.range_counts.iter().map(|&c| c as u64).sum::<u64>(), 1);
}

#[test]
fn continuation_buses_are_fresh() {
    let mut m = BusIndexManager::new();
    let s = SystemBase::new(&mut m, true).unwrap();
    assert_eq!(s.range_checker_bus(), 3);
    assert_eq!(s.merkle_bus(), Some(4));
    assert_eq!(s.compression_bus(), Some(5));
    assert_eq!(m.new_bus_idx(), Some(6));
    let mut m2 = BusIndexManager::new();
    let s2 = SystemBase::new(&mut m2, false).unwrap();
    assert_eq!(s2.merkle_bus(), None);
    assert_eq!(s2.compression_bus(), None);
}

#[test]
fn field_extension_io_columns_flatten_in_order() {
    let cols = FieldExtensionArithmeticIoCols::<u32> {
        pc: 1, timestamp: 2, op_a: 3, op_b: 4, op_c: 5, d: 6, e: 7,
        x: [8, 9, 10, 11], y: [12, 13, 14, 15], z: [16, 17, 18, 19],
    };
    assert_eq!(cols.flatten(), (1..=19).collect::<Vec<u32>>());
    assert_eq!(FieldExtensionArithmeticIoCols::<u32>::get_width(), 19);
    assert_eq!(Rv32RdWriteAdapterCols::<u32>::width(), 0);
}

#[test]
fn sparse_digest_matches_dense_tree() {
    // a small tree built leaf by leaf agrees with the sparse digest
    let mut image = MemoryImage::new(config()).unwrap();
    image.set(3, 15, vec![7, 7, 7, 7]).unwrap();
    image.set(0, 1, vec![1, 0, 0, 0]).unwrap();
    let leaves: Vec<[u32; 8]> = (0..32u64).map(|l| compute_leaf(&image, l)).collect();
    assert_eq!(digest(&image).unwrap(), compute_root(&leaves, 5));
}

#[test]
fn digest_covers_the_widest_address_range() {
    let wide = MemoryConfig { word_size: 8, as_max_bits: 30, pointer_max_bits: 30, clk_max_bits: 16 };
    let mut image = MemoryImage::new(wide).unwrap();
    let empty = digest(&image).unwrap();
    image.set(1 << 29, 12345, vec![1, 2, 3, 4, 5, 6, 7, 8]).unwrap();
    let written = digest(&image).unwrap();
    assert_ne!(empty, written);
}
