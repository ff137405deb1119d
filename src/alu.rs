use vstd::arithmetic::div_mod::lemma_fundamental_div_mod_converse_mod;
use vstd::arithmetic::power2::{lemma_pow2_adds, lemma_pow2_pos, pow2};
use vstd::prelude::*;

verus! {

/// The base ALU operations on limb-decomposed integers.
#[derive(Clone, Copy, Debug, PartialEq, Eq, Structural)]
pub enum AluOpcode {
    ADD,
    SUB,
    XOR,
    OR,
    AND,
}

/// Value of little-endian limbs of `bits` bits each.
pub open spec fn limbs_value(s: Seq<u32>, bits: nat) -> int
    decreases s.len(),
{
    if s.len() == 0 {
        0
    } else {
        limbs_value(s.drop_last(), bits) + s.last() * pow2(bits * (s.len() - 1) as nat)
    }
}

pub open spec fn limbs_in_range(s: Seq<u32>, bits: nat) -> bool {
    forall|i: int| 0 <= i < s.len() ==> (#[trigger] s[i]) < pow2(bits)
}

/// What `solve_alu` computes, limb by limb for the bitwise operations and as
/// numbers modulo `2^(bits * n)` for addition and subtraction.
pub open spec fn alu_result(opcode: AluOpcode, x: Seq<u32>, y: Seq<u32>, z: Seq<u32>, bits: nat) -> bool {
    let m = pow2(bits * x.len());
    &&& z.len() == x.len()
    &&& limbs_in_range(z, bits)
    &&& match opcode {
        AluOpcode::ADD => limbs_value(z, bits) == (limbs_value(x, bits) + limbs_value(y, bits)) % (
        m as int),
        AluOpcode::SUB => limbs_value(z, bits) == (limbs_value(x, bits) - limbs_value(y, bits)) % (
        m as int),
        AluOpcode::XOR => forall|i: int| 0 <= i < z.len() ==> #[trigger] z[i] == x[i] ^ y[i],
        AluOpcode::OR => forall|i: int| 0 <= i < z.len() ==> #[trigger] z[i] == x[i] | y[i],
        AluOpcode::AND => forall|i: int| 0 <= i < z.len() ==> #[trigger] z[i] == x[i] & y[i],
    }
}

proof fn lemma_value_step(s: Seq<u32>, bits: nat, i: int)
    requires
        0 <= i < s.len(),
    ensures
        limbs_value(s.take(i + 1), bits) == limbs_value(s.take(i), bits) + s[i] * pow2(
            bits * i as nat,
        ),
{
    assert(s.take(i + 1).drop_last() =~= s.take(i));
}

proof fn lemma_value_bound(s: Seq<u32>, bits: nat)
    requires
        limbs_in_range(s, bits),
    ensures
        0 <= limbs_value(s, bits) < pow2(bits * s.len()),
    decreases s.len(),
{
    if s.len() == 0 {
        vstd::arithmetic::power2::lemma2_to64();
    } else {
        let t = s.drop_last();
        let n = (s.len() - 1) as nat;
        assert(limbs_in_range(t, bits)) by {
            assert forall|i: int| 0 <= i < t.len() implies (#[trigger] t[i]) < pow2(bits) by {
                assert(t[i] == s[i]);
            }
        }
        lemma_value_bound(t, bits);
        lemma_pow2_adds(bits * n, bits);
        lemma_pow2_pos(bits * n);
        assert(bits * n + bits == bits * s.len()) by (nonlinear_arith)
            requires
                n + 1 == s.len(),
        ;
        let p = pow2(bits * n) as int;
        let last = s.last() as int;
        assert(last < pow2(bits));
        assert(last * p <= (pow2(bits) - 1) * p) by (nonlinear_arith)
            requires
                last < pow2(bits),
                p > 0,
        ;
        assert(0 <= last * p) by (nonlinear_arith)
            requires
                last >= 0,
                p > 0,
        ;
        assert((pow2(bits) - 1) * p + p == pow2(bits) * p) by (nonlinear_arith);
    }
}

/// Adds, subtracts or combines bitwise two little-endian numbers of
/// `NUM_LIMBS` limbs of `LIMB_BITS` bits.
pub fn solve_alu<const NUM_LIMBS: usize, const LIMB_BITS: usize>(
    opcode: AluOpcode,
    x: &[u32; NUM_LIMBS],
    y: &[u32; NUM_LIMBS],
) -> (z: [u32; NUM_LIMBS])
    requires
        0 < LIMB_BITS <= 31,
        limbs_in_range(x@, LIMB_BITS as nat),
        limbs_in_range(y@, LIMB_BITS as nat),
    ensures
        alu_result(opcode, x@, y@, z@, LIMB_BITS as nat),
{
    match opcode {
        AluOpcode::ADD => run_add::<NUM_LIMBS, LIMB_BITS>(x, y),
        AluOpcode::SUB => run_sub::<NUM_LIMBS, LIMB_BITS>(x, y),
        AluOpcode::XOR => run_bitwise::<NUM_LIMBS, LIMB_BITS>(opcode, x, y),
        AluOpcode::OR => run_bitwise::<NUM_LIMBS, LIMB_BITS>(opcode, x, y),
        AluOpcode::AND => run_bitwise::<NUM_LIMBS, LIMB_BITS>(opcode, x, y),
    }
}

fn run_bitwise<const NUM_LIMBS: usize, const LIMB_BITS: usize>(
    opcode: AluOpcode,
    x: &[u32; NUM_LIMBS],
    y: &[u32; NUM_LIMBS],
) -> (z: [u32; NUM_LIMBS])
    requires
        opcode != AluOpcode::ADD && opcode != AluOpcode::SUB,
        0 < LIMB_BITS <= 31,
        limbs_in_range(x@, LIMB_BITS as nat),
        limbs_in_range(y@, LIMB_BITS as nat),
    ensures
        limbs_in_range(z@, LIMB_BITS as nat),
        forall|i: int|
            0 <= i < NUM_LIMBS ==> #[trigger] z@[i] == match opcode {
                AluOpcode::XOR => x@[i] ^ y@[i],
                AluOpcode::OR => x@[i] | y@[i],
                _ => x@[i] & y@[i],
            },
{
    let ghost b = LIMB_BITS as nat;
    let sh = LIMB_BITS as u32;
    proof {
        vstd::bits::lemma_u32_pow2_no_overflow(b);
        assert(1 * pow2(b) == pow2(b));
        vstd::bits::lemma_u32_shl_is_mul(1, sh);
    }
    let mut z = [0u32; NUM_LIMBS];
    let mut i: usize = 0;
    while i < NUM_LIMBS
        invariant
            i <= NUM_LIMBS,
            sh == LIMB_BITS,
            sh < 32,
            (1u32 << sh) == pow2(b),
            b == LIMB_BITS,
            limbs_in_range(x@, b),
            limbs_in_range(y@, b),
            forall|j: int| 0 <= j < i ==> (#[trigger] z@[j]) < pow2(b),
            forall|j: int|
                0 <= j < i ==> #[trigger] z@[j] == match opcode {
                    AluOpcode::XOR => x@[j] ^ y@[j],
                    AluOpcode::OR => x@[j] | y@[j],
                    _ => x@[j] & y@[j],
                },
        decreases NUM_LIMBS - i,
    {
        let xi = x[i];
        let yi = y[i];
        proof {
            assert(x@[i as int] < pow2(b) && y@[i as int] < pow2(b));
            assert(xi < (1u32 << sh) && yi < (1u32 << sh) ==> (xi ^ yi) < (1u32 << sh) && (xi | yi)
                < (1u32 << sh) && (xi & yi) < (1u32 << sh)) by (bit_vector)
                requires
                    sh < 32,
            ;
        }
        let v = match opcode {
            AluOpcode::XOR => xi ^ yi,
            AluOpcode::OR => xi | yi,
            _ => xi & yi,
        };
        z[i] = v;
        i += 1;
    }
    z
}

fn run_add<const NUM_LIMBS: usize, const LIMB_BITS: usize>(x: &[u32; NUM_LIMBS], y: &[u32; NUM_LIMBS]) -> (z:
    [u32; NUM_LIMBS])
    requires
        0 < LIMB_BITS <= 31,
        limbs_in_range(x@, LIMB_BITS as nat),
        limbs_in_range(y@, LIMB_BITS as nat),
    ensures
        alu_result(AluOpcode::ADD, x@, y@, z@, LIMB_BITS as nat),
{
    let ghost b = LIMB_BITS as nat;
    proof {
        vstd::bits::lemma_u64_pow2_no_overflow(b);
        vstd::arithmetic::power2::lemma_pow2_strictly_increases(b, 32);
        vstd::arithmetic::power2::lemma2_to64();
    }
    let p: u64 = 1u64 << LIMB_BITS as u64;
    proof {
        assert(1 * pow2(b) == pow2(b));
        vstd::bits::lemma_u64_shl_is_mul(1, LIMB_BITS as u64);
    }
    let mut z = [0u32; NUM_LIMBS];
    let mut carry: u64 = 0;
    let mut i: usize = 0;
    while i < NUM_LIMBS
        invariant
            i <= NUM_LIMBS,
            p == pow2(b),
            p <= 0x8000_0000,
            b == LIMB_BITS,
            limbs_in_range(x@, b),
            limbs_in_range(y@, b),
            carry <= 1,
            forall|j: int| 0 <= j < i ==> (#[trigger] z@[j]) < pow2(b),
            limbs_value(z@.take(i as int), b) + carry * pow2(b * i as nat) == limbs_value(
                x@.take(i as int),
                b,
            ) + limbs_value(y@.take(i as int), b),
        decreases NUM_LIMBS - i,
    {
        let s = x[i] as u64 + y[i] as u64 + carry;
        let zi = (s % p) as u32;
        let c = s / p;
        proof {
            assert(x@[i as int] < pow2(b) && y@[i as int] < pow2(b));
            assert(s < 2 * p);
            assert(c <= 1) by (nonlinear_arith)
                requires
                    c == s / p,
                    s < 2 * p,
                    p > 0,
            ;
            assert(s == c * p + zi) by (nonlinear_arith)
                requires
                    c == s / p,
                    zi == s % p,
                    p > 0,
            ;
        }
        let ghost zo = z@;
        z[i] = zi;
        proof {
            let ii = i as int;
            assert(z@.take(ii) =~= zo.take(ii));
            lemma_value_step(z@, b, ii);
            lemma_value_step(x@, b, ii);
            lemma_value_step(y@, b, ii);
            lemma_pow2_adds(b * i as nat, b);
            assert(b * i as nat + b == b * (i + 1) as nat) by (nonlinear_arith);
            let pi = pow2(b * i as nat) as int;
            assert(c * pow2(b * (i + 1) as nat) == c * p * pi) by (nonlinear_arith)
                requires
                    pow2(b * (i + 1) as nat) == pi * p,
            ;
            assert((zi + c * p) * pi == zi * pi + c * p * pi) by (nonlinear_arith);
            assert((x@[ii] + y@[ii] + carry) * pi == x@[ii] * pi + y@[ii] * pi + carry * pi)
                by (nonlinear_arith);
        }
        carry = c;
        i += 1;
    }
    proof {
        let n = NUM_LIMBS as int;
        assert(z@.take(n) =~= z@);
        assert(x@.take(n) =~= x@);
        assert(y@.take(n) =~= y@);
        lemma_value_bound(z@, b);
        lemma_fundamental_div_mod_converse_mod(
            limbs_value(x@, b) + limbs_value(y@, b),
            pow2(b * n as nat) as int,
            carry as int,
            limbs_value(z@, b),
        );
    }
    z
}

fn run_sub<const NUM_LIMBS: usize, const LIMB_BITS: usize>(x: &[u32; NUM_LIMBS], y: &[u32; NUM_LIMBS]) -> (z:
    [u32; NUM_LIMBS])
    requires
        0 < LIMB_BITS <= 31,
        limbs_in_range(x@, LIMB_BITS as nat),
        limbs_in_range(y@, LIMB_BITS as nat),
    ensures
        alu_result(AluOpcode::SUB, x@, y@, z@, LIMB_BITS as nat),
{
    let ghost b = LIMB_BITS as nat;
    proof {
        vstd::bits::lemma_u64_pow2_no_overflow(b);
        vstd::arithmetic::power2::lemma_pow2_strictly_increases(b, 32);
        vstd::arithmetic::power2::lemma2_to64();
    }
    let p: u64 = 1u64 << LIMB_BITS as u64;
    proof {
        assert(1 * pow2(b) == pow2(b));
        vstd::bits::lemma_u64_shl_is_mul(1, LIMB_BITS as u64);
    }
    let mut z = [0u32; NUM_LIMBS];
    let mut borrow: u64 = 0;
    let mut i: usize = 0;
    while i < NUM_LIMBS
        invariant
            i <= NUM_LIMBS,
            p == pow2(b),
            p <= 0x8000_0000,
            b == LIMB_BITS,
            limbs_in_range(x@, b),
            limbs_in_range(y@, b),
            borrow <= 1,
            forall|j: int| 0 <= j < i ==> (#[trigger] z@[j]) < pow2(b),
            limbs_value(z@.take(i as int), b) - borrow * pow2(b * i as nat) == limbs_value(
                x@.take(i as int),
                b,
            ) - limbs_value(y@.take(i as int), b),
        decreases NUM_LIMBS - i,
    {
        let rhs = y[i] as u64 + borrow;
        let xi = x[i] as u64;
        proof {
            assert(x@[i as int] < pow2(b) && y@[i as int] < pow2(b));
        }
        let zi: u32;
        let c: u64;
        if xi >= rhs {
            zi = (xi - rhs) as u32;
            c = 0;
        } else {
            zi = (xi + p - rhs) as u32;
            c = 1;
        }
        proof {
            assert(zi + rhs == xi + c * p);
            assert(zi < pow2(b));
        }
        let ghost zo = z@;
        z[i] = zi;
        proof {
            let ii = i as int;
            assert(z@.take(ii) =~= zo.take(ii));
            lemma_value_step(z@, b, ii);
            lemma_value_step(x@, b, ii);
            lemma_value_step(y@, b, ii);
            lemma_pow2_adds(b * i as nat, b);
            assert(b * i as nat + b == b * (i + 1) as nat) by (nonlinear_arith);
            let pi = pow2(b * i as nat) as int;
            assert(c * pow2(b * (i + 1) as nat) == c * p * pi) by (nonlinear_arith)
                requires
                    pow2(b * (i + 1) as nat) == pi * p,
            ;
            assert((zi + rhs) * pi == (xi + c * p) * pi);
            assert((zi + rhs) * pi == zi * pi + y@[ii] * pi + borrow * pi) by (nonlinear_arith)
                requires
                    rhs == y@[ii] + borrow,
            ;
            assert((xi + c * p) * pi == x@[ii] * pi + c * p * pi) by (nonlinear_arith)
                requires
                    xi == x@[ii],
            ;
        }
        borrow = c;
        i += 1;
    }
    proof {
        let n = NUM_LIMBS as int;
        assert(z@.take(n) =~= z@);
        assert(x@.take(n) =~= x@);
        assert(y@.take(n) =~= y@);
        lemma_value_bound(z@, b);
        let m = pow2(b * n as nat) as int;
        assert((-(borrow as int)) * m == -(borrow * m)) by (nonlinear_arith);
        lemma_fundamental_div_mod_converse_mod(
            limbs_value(x@, b) - limbs_value(y@, b),
            pow2(b * n as nat) as int,
            -(borrow as int),
            limbs_value(z@, b),
        );
    }
    z
}

} // verus!
