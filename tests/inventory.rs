use vm_memory::inventory::{air_order, AirSlot, ChipId, VmInventory, VmInventoryError};

#[test]
fn executors_own_their_opcodes() {
    let mut inv: VmInventory<&str, u32> = VmInventory::new();
    inv.add_executor("alu", vec![1, 2, 3]).unwrap();
    inv.add_periphery_chip(7);
    inv.add_executor("branch", vec![4]).unwrap();
    assert_eq!(inv.get_executor(2), Some(&"alu"));
    assert_eq!(inv.get_executor(4), Some(&"branch"));
    assert_eq!(inv.get_executor(5), None);
    assert_eq!(inv.num_airs(), 3);
    assert_eq!(inv.executors(), &vec!["alu", "branch"]);
    assert_eq!(inv.periphery(), &vec![7]);
}

#[test]
fn opcode_owned_twice_is_refused() {
    let mut inv: VmInventory<&str, u32> = VmInventory::new();
    inv.add_executor("alu", vec![1, 2]).unwrap();
    assert_eq!(
        inv.add_executor("other", vec![9, 2]),
        Err(VmInventoryError::ExecutorExists { opcode: 2, id: 0 })
    );
    assert_eq!(inv.get_executor(9), None);
    assert_eq!(inv.num_airs(), 1);
}

#[test]
fn traces_are_generated_in_reverse_insertion_order() {
    let mut inv: VmInventory<&str, u32> = VmInventory::new();
    inv.add_periphery_chip(1);
    inv.add_executor("alu", vec![0]).unwrap();
    inv.add_periphery_chip(2);
    assert_eq!(
        inv.insertion_order(),
        &vec![ChipId::Periphery(0), ChipId::Executor(0), ChipId::Periphery(1)]
    );
    assert_eq!(
        inv.trace_generation_order(),
        vec![ChipId::Periphery(1), ChipId::Executor(0), ChipId::Periphery(0)]
    );
}

#[test]
fn append_shifts_ids_of_extension() {
    let mut base: VmInventory<&str, u32> = VmInventory::new();
    base.add_executor("alu", vec![1]).unwrap();
    base.add_periphery_chip(10);
    let mut ext: VmInventory<&str, u32> = VmInventory::new();
    ext.add_periphery_chip(20);
    ext.add_executor("hash", vec![7, 8]).unwrap();
    base.append(ext).unwrap();
    assert_eq!(base.get_executor(7), Some(&"hash"));
    assert_eq!(base.get_executor(1), Some(&"alu"));
    assert_eq!(base.num_airs(), 4);
    assert_eq!(
        base.insertion_order(),
        &vec![
            ChipId::Executor(0),
            ChipId::Periphery(0),
            ChipId::Periphery(1),
            ChipId::Executor(1)
        ]
    );
    assert_eq!(base.periphery(), &vec![10, 20]);
}

#[test]
fn append_refuses_shared_opcode() {
    let mut base: VmInventory<&str, u32> = VmInventory::new();
    base.add_executor("alu", vec![1, 2]).unwrap();
    let mut ext: VmInventory<&str, u32> = VmInventory::new();
    ext.add_executor("other", vec![3, 2]).unwrap();
    assert_eq!(base.append(ext), Err(VmInventoryError::ExecutorExists { opcode: 2, id: 0 }));
    assert_eq!(base.num_airs(), 1);
    assert_eq!(base.get_executor(3), None);
}

#[test]
fn air_order_puts_range_checker_last() {
    let mut inv: VmInventory<&str, u32> = VmInventory::new();
    inv.add_executor("public values", vec![0]).unwrap();
    inv.add_periphery_chip(1);
    inv.add_executor("alu", vec![5]).unwrap();
    assert_eq!(
        air_order(&inv, true, 2),
        vec![
            AirSlot::Program,
            AirSlot::Connector,
            AirSlot::PublicValues,
            AirSlot::Memory(0),
            AirSlot::Memory(1),
            AirSlot::Chip(ChipId::Executor(1)),
            AirSlot::Chip(ChipId::Periphery(0)),
            AirSlot::RangeChecker,
        ]
    );
    assert_eq!(
        air_order(&inv, false, 0),
        vec![
            AirSlot::Program,
            AirSlot::Connector,
            AirSlot::Chip(ChipId::Executor(1)),
            AirSlot::Chip(ChipId::Periphery(0)),
            AirSlot::Chip(ChipId::Executor(0)),
            AirSlot::RangeChecker,
        ]
    );
}
