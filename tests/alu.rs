use vm_memory::alu::{solve_alu, AluOpcode};

const RV32_REGISTER_NUM_LANES: usize = 4;
const RV32_CELL_BITS: usize = 8;

#[test]
fn solve_add_sanity_test() {
    let x: [u32; RV32_REGISTER_NUM_LANES] = [229, 33, 29, 111];
    let y: [u32; RV32_REGISTER_NUM_LANES] = [50, 171, 44, 194];
    let z: [u32; RV32_REGISTER_NUM_LANES] = [23, 205, 73, 49];
    let result = solve_alu::<RV32_REGISTER_NUM_LANES, RV32_CELL_BITS>(AluOpcode::ADD, &x, &y);
    for i in 0..RV32_REGISTER_NUM_LANES {
        assert_eq!(z[i], result[i])
    }
}

#[test]
fn solve_sub_sanity_test() {
    let x: [u32; RV32_REGISTER_NUM_LANES] = [229, 33, 29, 111];
    let y: [u32; RV32_REGISTER_NUM_LANES] = [50, 171, 44, 194];
    let z: [u32; RV32_REGISTER_NUM_LANES] = [179, 118, 240, 172];
    let result = solve_alu::<RV32_REGISTER_NUM_LANES, RV32_CELL_BITS>(AluOpcode::SUB, &x, &y);
    for i in 0..RV32_REGISTER_NUM_LANES {
        assert_eq!(z[i], result[i])
    }
}

#[test]
fn solve_xor_sanity_test() {
    let x: [u32; RV32_REGISTER_NUM_LANES] = [229, 33, 29, 111];
    let y: [u32; RV32_REGISTER_NUM_LANES] = [50, 171, 44, 194];
    let z: [u32; RV32_REGISTER_NUM_LANES] = [215, 138, 49, 173];
    let result = solve_alu::<RV32_REGISTER_NUM_LANES, RV32_CELL_BITS>(AluOpcode::XOR, &x, &y);
    for i in 0..RV32_REGISTER_NUM_LANES {
        assert_eq!(z[i], result[i])
    }
}

#[test]
fn solve_or_sanity_test() {
    let x: [u32; RV32_REGISTER_NUM_LANES] = [229, 33, 29, 111];
    let y: [u32; RV32_REGISTER_NUM_LANES] = [50, 171, 44, 194];
    let z: [u32; RV32_REGISTER_NUM_LANES] = [247, 171, 61, 239];
    let result = solve_alu::<RV32_REGISTER_NUM_LANES, RV32_CELL_BITS>(AluOpcode::OR, &x, &y);
    for i in 0..RV32_REGISTER_NUM_LANES {
        assert_eq!(z[i], result[i])
    }
}

#[test]
fn solve_and_sanity_test() {
    let x: [u32; RV32_REGISTER_NUM_LANES] = [229, 33, 29, 111];
    let y: [u32; RV32_REGISTER_NUM_LANES] = [50, 171, 44, 194];
    let z: [u32; RV32_REGISTER_NUM_LANES] = [32, 33, 12, 66];
    let result = solve_alu::<RV32_REGISTER_NUM_LANES, RV32_CELL_BITS>(AluOpcode::AND, &x, &y);
    for i in 0..RV32_REGISTER_NUM_LANES {
        assert_eq!(z[i], result[i])
    }
}

#[test]
fn solve_add_wraps_around() {
    let x: [u32; 2] = [255, 255];
    let y: [u32; 2] = [1, 0];
    assert_eq!(solve_alu::<2, 8>(AluOpcode::ADD, &x, &y), [0, 0]);
}

#[test]
fn solve_sub_borrows_past_the_top() {
    let x: [u32; 2] = [0, 0];
    let y: [u32; 2] = [1, 0];
    assert_eq!(solve_alu::<2, 8>(AluOpcode::SUB, &x, &y), [255, 255]);
}
