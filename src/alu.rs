//! Arithmetic and bitwise operations on 32-bit two's-complement values.
use vstd::prelude::*;

verus! {

/// The binary operations of the instruction set.
#[derive(Clone, Copy, Debug, PartialEq, Eq, Structural)]
pub enum BinOp {
    Add,
    Sub,
    Mult,
    Div,
    LShift,
    RShift,
    And,
    Or,
    Xor,
}

/// Two's-complement wraparound: the `i32` congruent to `x` modulo 2^32.
pub open spec fn wrap32(x: int) -> i32 {
    if (x % 0x1_0000_0000) > i32::MAX as int {
        ((x % 0x1_0000_0000) - 0x1_0000_0000) as i32
    } else {
        (x % 0x1_0000_0000) as i32
    }
}

/// Integer division that truncates toward zero. (`/` on `int` is Euclidean
/// division, which agrees with truncation when the dividend is not negative.)
pub open spec fn trunc_div(a: int, b: int) -> int {
    if a >= 0 {
        a / b
    } else {
        -((-a) / b)
    }
}

/// The amount by which a shift moves: the low five bits of the operand.
pub open spec fn shift_amount(b: i32) -> u32 {
    (b as u32) % 32
}

/// What an operation yields on two values; a division by zero is a fault
/// and has no value here.
pub open spec fn apply(op: BinOp, a: i32, b: i32) -> i32 {
    match op {
        BinOp::Add => wrap32(a + b),
        BinOp::Sub => wrap32(a - b),
        BinOp::Mult => wrap32(a * b),
        BinOp::Div => wrap32(trunc_div(a as int, b as int)),
        BinOp::LShift => a << shift_amount(b),
        BinOp::RShift => a >> shift_amount(b),
        BinOp::And => a & b,
        BinOp::Or => a | b,
        BinOp::Xor => a ^ b,
    }
}

proof fn lemma_wrapping_add(a: i32, b: i32)
    ensures
        vstd::wrapping::i32_specs::wrapping_add(a, b) == wrap32(a + b),
{
}

proof fn lemma_wrapping_sub(a: i32, b: i32)
    ensures
        vstd::wrapping::i32_specs::wrapping_sub(a, b) == wrap32(a - b),
{
}

/// The truncated quotient fits in `i32` except for `i32::MIN / -1`, whose
/// wraparound is `i32::MIN`.
pub proof fn lemma_trunc_div(a: i32, b: i32)
    requires
        b != 0,
    ensures
        !(a == i32::MIN && b == -1) ==> i32::MIN <= trunc_div(a as int, b as int) <= i32::MAX,
        !(a == i32::MIN && b == -1) ==> wrap32(trunc_div(a as int, b as int)) == trunc_div(a as int, b as int),
        (a == i32::MIN && b == -1) ==> wrap32(trunc_div(a as int, b as int)) == i32::MIN,
{
    let x = a as int;
    let y = b as int;
    if x >= 0 {
        assert(-x <= x / y <= x) by (nonlinear_arith)
            requires
                x >= 0,
                y != 0,
        ;
    } else {
        assert(x <= -((-x) / y) <= -x) by (nonlinear_arith)
            requires
                x < 0,
                y != 0,
        ;
        if y == -1 {
            assert((-x) / y == x);
        } else if y == 1 {
            assert((-x) / y == -x);
        } else {
            assert(-0x7fff_ffff <= (-x) / y <= 0x7fff_ffff) by (nonlinear_arith)
                requires
                    -x <= 0x8000_0000,
                    0 < -x,
                    y >= 2 || y <= -2,
            ;
        }
    }
}

/// Applies `op` to `a` and `b`.
pub fn compute(op: BinOp, a: i32, b: i32) -> (r: i32)
    requires
        op == BinOp::Div ==> b != 0,
    ensures
        r == apply(op, a, b),
{
    match op {
        BinOp::Add => {
            proof {
                lemma_wrapping_add(a, b);
            }
            a.wrapping_add(b)
        },
        BinOp::Sub => {
            proof {
                lemma_wrapping_sub(a, b);
            }
            a.wrapping_sub(b)
        },
        BinOp::Mult => a.wrapping_mul(b),
        BinOp::Div => {
            proof {
                lemma_trunc_div(a, b);
            }
            if a == i32::MIN && b == -1 {
                i32::MIN
            } else {
                let q = a / b;
                assert(q == trunc_div(a as int, b as int));
                q
            }
        },
        BinOp::LShift => a.wrapping_shl(#[verifier::truncate] (b as u32)),
        BinOp::RShift => a.wrapping_shr(#[verifier::truncate] (b as u32)),
        BinOp::And => a & b,
        BinOp::Or => a | b,
        BinOp::Xor => a ^ b,
    }
}

} // verus!
