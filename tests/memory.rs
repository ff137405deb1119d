use vm_memory::controller::{AccessKind, MemoryController};
use vm_memory::memory::{MemoryConfig, MemoryError, MemoryImage};
use vm_memory::offline_checker::{check_consistency, sorted_view, timestamps_ok};

fn config(word_size: usize) -> MemoryConfig {
    MemoryConfig { word_size, as_max_bits: 2, pointer_max_bits: 4, clk_max_bits: 16 }
}

#[test]
fn write_then_read_returns_word() {
    let mut m = MemoryController::new(config(1)).unwrap();
    let w = m.write(1, 5, vec![7]).unwrap();
    assert_eq!(w.timestamp, 0);
    assert_eq!(w.kind, AccessKind::Write);
    assert_eq!(w.prev_data, vec![0]);
    let r = m.read(1, 5).unwrap();
    assert_eq!(r.timestamp, 1);
    assert_eq!(r.kind, AccessKind::Read);
    assert_eq!(r.data, vec![7]);
    assert_eq!(m.timestamp(), 2);
}

#[test]
fn unwritten_cell_reads_default_word() {
    let mut m = MemoryController::new(config(4)).unwrap();
    let r = m.read(2, 9).unwrap();
    assert_eq!(r.data, vec![0, 0, 0, 0]);
    assert_eq!(r.prev_data, vec![0, 0, 0, 0]);
}

#[test]
fn write_returns_prior_word() {
    let mut m = MemoryController::new(config(2)).unwrap();
    m.write(0, 3, vec![1, 2]).unwrap();
    let w = m.write(0, 3, vec![5, 6]).unwrap();
    assert_eq!(w.prev_data, vec![1, 2]);
    assert_eq!(w.data, vec![5, 6]);
    assert_eq!(m.read(0, 3).unwrap().data, vec![5, 6]);
    assert_eq!(m.access_log().len(), 3);
}

#[test]
fn address_spaces_do_not_alias() {
    let mut m = MemoryController::new(config(1)).unwrap();
    m.write(1, 4, vec![10]).unwrap();
    m.write(2, 4, vec![20]).unwrap();
    assert_eq!(m.read(1, 4).unwrap().data, vec![10]);
    assert_eq!(m.read(2, 4).unwrap().data, vec![20]);
}

#[test]
fn access_errors() {
    let mut m = MemoryController::new(config(2)).unwrap();
    assert_eq!(m.read(4, 0).err(), Some(MemoryError::AddressOutOfBounds));
    assert_eq!(m.read(0, 16).err(), Some(MemoryError::AddressOutOfBounds));
    assert_eq!(m.write(0, 0, vec![1]).err(), Some(MemoryError::WrongWordSize));
    assert_eq!(m.timestamp(), 0);
    assert!(m.access_log().is_empty());
}

#[test]
fn timestamp_overflow_is_fatal() {
    let cfg = MemoryConfig { word_size: 1, as_max_bits: 1, pointer_max_bits: 1, clk_max_bits: 2 };
    let mut m = MemoryController::new(cfg).unwrap();
    for _ in 0..4 {
        m.read(0, 0).unwrap();
    }
    assert_eq!(m.read(0, 0).err(), Some(MemoryError::TimestampOverflow));
    assert_eq!(m.timestamp(), 4);
}

#[test]
fn invalid_config_is_refused() {
    assert_eq!(MemoryController::new(config(0)).err(), Some(MemoryError::InvalidConfig));
    let wide = MemoryConfig { word_size: 1, as_max_bits: 31, pointer_max_bits: 4, clk_max_bits: 8 };
    assert_eq!(MemoryController::new(wide).err(), Some(MemoryError::InvalidConfig));
}

#[test]
fn initial_memory_is_read_back() {
    let mut image = MemoryImage::new(config(1)).unwrap();
    image.set(1, 2, vec![9]).unwrap();
    assert_eq!(image.set(1, 99, vec![9]), Err(MemoryError::AddressOutOfBounds));
    let mut m = MemoryController::with_initial_memory(image, 100).unwrap();
    let r = m.read(1, 2).unwrap();
    assert_eq!(r.data, vec![9]);
    assert_eq!(r.timestamp, 100);
}

#[test]
fn sorted_view_orders_by_cell_then_time() {
    let mut m = MemoryController::new(config(1)).unwrap();
    m.write(1, 5, vec![7]).unwrap();
    m.write(0, 9, vec![3]).unwrap();
    m.read(1, 5).unwrap();
    m.read(0, 1).unwrap();
    m.write(1, 5, vec![8]).unwrap();
    let log = m.access_log().clone();
    assert!(timestamps_ok(&log));
    let sorted = sorted_view(&log);
    let keys: Vec<(u32, u32, u64)> =
        sorted.iter().map(|r| (r.address_space, r.pointer, r.timestamp)).collect();
    assert_eq!(keys, vec![(0, 1, 3), (0, 9, 1), (1, 5, 0), (1, 5, 2), (1, 5, 4)]);
    let initial = MemoryImage::new(config(1)).unwrap();
    assert!(check_consistency(&sorted, &initial));
}

#[test]
fn forged_read_fails_consistency() {
    let mut m = MemoryController::new(config(1)).unwrap();
    m.write(1, 5, vec![7]).unwrap();
    m.read(1, 5).unwrap();
    let mut log = m.access_log().clone();
    log[1].data = vec![8];
    log[1].prev_data = vec![8];
    let sorted = sorted_view(&log);
    let initial = MemoryImage::new(config(1)).unwrap();
    assert!(!check_consistency(&sorted, &initial));
}

#[test]
fn first_read_of_fresh_cell_must_carry_initial_word() {
    let mut m = MemoryController::new(config(1)).unwrap();
    m.read(0, 2).unwrap();
    let mut log = m.access_log().clone();
    log[0].data = vec![1];
    log[0].prev_data = vec![1];
    let initial = MemoryImage::new(config(1)).unwrap();
    assert!(!check_consistency(&sorted_view(&log), &initial));
}

#[test]
fn decreasing_timestamps_are_detected() {
    let mut m = MemoryController::new(config(1)).unwrap();
    m.read(0, 2).unwrap();
    m.read(0, 3).unwrap();
    let mut log = m.access_log().clone();
    log.swap(0, 1);
    assert!(!timestamps_ok(&log));
}
