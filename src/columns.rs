use std::marker::PhantomData;

use vstd::prelude::*;

verus! {

/// Number of IO columns of the Poseidon2 chip.
pub const POSEIDON2_IO_WIDTH: usize = 10;

/// IO columns of the Poseidon2 chip.
/// * `is_opcode`: whether the row is for an opcode (either COMPRESS or PERMUTE)
/// * `is_compress_direct`: whether the row is for a direct hash
/// * `pc`, `timestamp`: the execution state the row starts from
/// * `a`, `b`, `c`: addresses
/// * `d`, `e`: address spaces
/// * `is_compress_opcode`: compression rather than permutation
#[derive(Clone, Copy, Debug, PartialEq, Eq)]
pub struct Poseidon2VmIoCols<T> {
    pub is_opcode: T,
    pub is_compress_opcode: T,
    pub is_compress_direct: T,
    pub pc: T,
    pub timestamp: T,
    pub a: T,
    pub b: T,
    pub c: T,
    pub d: T,
    pub e: T,
}

impl<T: Copy> Poseidon2VmIoCols<T> {
    /// The columns in trace order.
    pub open spec fn columns(&self) -> Seq<T> {
        seq![
            self.is_opcode,
            self.is_compress_direct,
            self.pc,
            self.timestamp,
            self.a,
            self.b,
            self.c,
            self.d,
            self.e,
            self.is_compress_opcode,
        ]
    }

    pub fn get_width() -> (r: usize)
        ensures
            r == POSEIDON2_IO_WIDTH,
    {
        POSEIDON2_IO_WIDTH
    }

    /// The columns in trace order.
    pub fn flatten(&self) -> (r: Vec<T>)
        ensures
            r@ == self.columns(),
            r@.len() == POSEIDON2_IO_WIDTH,
    {
        let r = vec![
            self.is_opcode,
            self.is_compress_direct,
            self.pc,
            self.timestamp,
            self.a,
            self.b,
            self.c,
            self.d,
            self.e,
            self.is_compress_opcode,
        ];
        assert(r@ =~= self.columns());
        r
    }

    /// Reads the columns from the start of a trace row.
    pub fn from_slice(slice: &[T]) -> (r: Self)
        requires
            slice@.len() >= POSEIDON2_IO_WIDTH,
        ensures
            r.columns() == slice@.take(POSEIDON2_IO_WIDTH as int),
    {
        let r = Poseidon2VmIoCols {
            is_opcode: slice[0],
            is_compress_direct: slice[1],
            pc: slice[2],
            timestamp: slice[3],
            a: slice[4],
            b: slice[5],
            c: slice[6],
            d: slice[7],
            e: slice[8],
            is_compress_opcode: slice[9],
        };
        assert(r.columns() =~= slice@.take(POSEIDON2_IO_WIDTH as int));
        r
    }
}

impl Poseidon2VmIoCols<u32> {
    /// A padding row: every column zero but the address spaces, which are one.
    pub fn blank_row() -> (r: Self)
        ensures
            r.columns() == seq![0u32, 0, 0, 0, 0, 0, 0, 1, 1, 0],
    {
        let r = Poseidon2VmIoCols {
            is_opcode: 0,
            is_compress_opcode: 0,
            is_compress_direct: 0,
            pc: 0,
            timestamp: 0,
            a: 0,
            b: 0,
            c: 0,
            d: 1,
            e: 1,
        };
        assert(r.columns() =~= seq![0u32, 0, 0, 0, 0, 0, 0, 1, 1, 0]);
        r
    }

    /// A row for a direct compression at `timestamp`.
    pub fn direct_io_cols(timestamp: u32) -> (r: Self)
        ensures
            r.columns() == seq![0u32, 1, 0, timestamp, 0, 0, 0, 1, 1, 0],
    {
        let r = Poseidon2VmIoCols {
            is_opcode: 0,
            is_compress_opcode: 0,
            is_compress_direct: 1,
            pc: 0,
            timestamp,
            a: 0,
            b: 0,
            c: 0,
            d: 1,
            e: 1,
        };
        assert(r.columns() =~= seq![0u32, 1, 0, timestamp, 0, 0, 0, 1, 1, 0]);
        r
    }
}

/// Degree of the field extension.
pub const EXT_DEG: usize = 4;

/// Number of IO columns of the field extension chip.
pub const FIELD_EXTENSION_IO_WIDTH: usize = 19;

/// IO columns of the field extension chip: the execution state, the operands
/// and address spaces, and the two inputs and the result.
#[derive(Clone, Copy, Debug, PartialEq, Eq)]
pub struct FieldExtensionArithmeticIoCols<T> {
    pub pc: T,
    pub timestamp: T,
    pub op_a: T,
    pub op_b: T,
    pub op_c: T,
    pub d: T,
    pub e: T,
    pub x: [T; 4],
    pub y: [T; 4],
    pub z: [T; 4],
}

impl<T: Copy> FieldExtensionArithmeticIoCols<T> {
    /// The columns in trace order.
    pub open spec fn columns(&self) -> Seq<T> {
        seq![self.pc, self.timestamp, self.op_a, self.op_b, self.op_c, self.d, self.e] + self.x@
            + self.y@ + self.z@
    }

    pub fn get_width() -> (r: usize)
        ensures
            r == FIELD_EXTENSION_IO_WIDTH,
    {
        FIELD_EXTENSION_IO_WIDTH
    }

    /// The columns in trace order.
    pub fn flatten(&self) -> (r: Vec<T>)
        ensures
            r@ == self.columns(),
            r@.len() == FIELD_EXTENSION_IO_WIDTH,
    {
        let mut r = vec![self.pc, self.timestamp, self.op_a, self.op_b, self.op_c, self.d, self.e];
        let mut i: usize = 0;
        while i < EXT_DEG
            invariant
                i <= 4,
                r@ == seq![self.pc, self.timestamp, self.op_a, self.op_b, self.op_c, self.d, self.e]
                    + self.x@.take(i as int),
            decreases 4 - i,
        {
            r.push(self.x[i]);
            i += 1;
            assert(r@ =~= seq![self.pc, self.timestamp, self.op_a, self.op_b, self.op_c, self.d, self.e]
                + self.x@.take(i as int));
        }
        assert(self.x@.take(4) =~= self.x@);
        let ghost base = r@;
        let mut i: usize = 0;
        while i < EXT_DEG
            invariant
                i <= 4,
                r@ == base + self.y@.take(i as int),
            decreases 4 - i,
        {
            r.push(self.y[i]);
            i += 1;
            assert(r@ =~= base + self.y@.take(i as int));
        }
        assert(self.y@.take(4) =~= self.y@);
        let ghost base2 = r@;
        let mut i: usize = 0;
        while i < EXT_DEG
            invariant
                i <= 4,
                r@ == base2 + self.z@.take(i as int),
            decreases 4 - i,
        {
            r.push(self.z[i]);
            i += 1;
            assert(r@ =~= base2 + self.z@.take(i as int));
        }
        assert(self.z@.take(4) =~= self.z@);
        assert(r@ =~= self.columns());
        r
    }
}

/// Columns of the adapter that writes a register without reading: it needs
/// none of its own.
pub struct Rv32RdWriteAdapterCols<T> {
    pub _marker: PhantomData<T>,
}

impl<T> Rv32RdWriteAdapterCols<T> {
    pub fn width() -> (r: usize)
        ensures
            r == 0,
    {
        0
    }
}

} // verus!
