//! The fixed-width arithmetic of the machine: 32-bit signed registers that
//! wrap around, sixteen-bit immediates, and a program counter that wraps at
//! the width of `usize`.
use vstd::arithmetic::div_mod::{
    lemma_div_nonincreasing, lemma_div_pos_is_pos, lemma_mod_add_multiples_vanish,
    lemma_mod_sub_multiples_vanish, lemma_small_mod,
};
use vstd::prelude::*;

verus! {

/// The 32-bit signed value that agrees with `x` modulo 2^32.
pub open spec fn wrap32(x: int) -> i32 {
    let m = x % 0x1_0000_0000;
    if m > i32::MAX {
        (m - 0x1_0000_0000) as i32
    } else {
        m as i32
    }
}

/// The absolute value of `x`.
pub open spec fn magnitude(x: int) -> int {
    if x < 0 {
        -x
    } else {
        x
    }
}

/// `a / b` rounded toward zero, for `b != 0`.
pub open spec fn trunc_div(a: int, b: int) -> int {
    let q = magnitude(a) / magnitude(b);
    if (a < 0) != (b < 0) {
        -q
    } else {
        q
    }
}

/// What is left of `a` after `trunc_div(a, b)`: it has the sign of `a`, and
/// `b * trunc_div(a, b) + trunc_rem(a, b) == a`.
pub open spec fn trunc_rem(a: int, b: int) -> int {
    let r = magnitude(a) % magnitude(b);
    if a < 0 {
        -r
    } else {
        r
    }
}

/// The 32 bits of the signed 32-bit value `x`, read as an unsigned number.
pub open spec fn as_unsigned(x: int) -> u32 {
    if x < 0 {
        (x + 0x1_0000_0000) as u32
    } else {
        x as u32
    }
}

/// The signed value of the sixteen bits `hi`, `lo`, high byte first.
pub open spec fn sign_extend16(hi: u8, lo: u8) -> i32 {
    let u = hi * 256 + lo;
    if u >= 0x8000 {
        (u - 0x1_0000) as i32
    } else {
        u as i32
    }
}

/// The low sixteen bits of `num`, as a number from 0 to 65535.
pub open spec fn low16(num: i32) -> int {
    (num as int) % 0x1_0000
}

/// The high byte of the low sixteen bits of `num`.
pub open spec fn high_byte(num: i32) -> u8 {
    (low16(num) / 256) as u8
}

/// The lowest byte of `num`.
pub open spec fn low_byte(num: i32) -> u8 {
    (low16(num) % 256) as u8
}

/// What an immediate is once it has been cut to sixteen bits and read back.
pub open spec fn truncate16(num: i32) -> i32 {
    sign_extend16(high_byte(num), low_byte(num))
}

/// The `usize` that agrees with `x` modulo the number of `usize` values.
pub open spec fn wrap_address(x: int) -> usize {
    (x % (usize::MAX + 1)) as usize
}

/// Reading back the two bytes of an immediate gives the number that agrees with
/// it modulo 2^16 and fits in sixteen signed bits; a number that fits is
/// unchanged.
pub proof fn lemma_truncate16(num: i32)
    ensures
        -0x8000 <= truncate16(num) < 0x8000,
        (truncate16(num) - num) % 0x1_0000 == 0,
        -0x8000 <= num < 0x8000 ==> truncate16(num) == num,
{
    let u = low16(num);
    assert(0 <= u < 0x1_0000);
    assert(high_byte(num) * 256 + low_byte(num) == u);
}

/// `sign_extend16(hi, lo)` as a machine value.
pub fn immediate(hi: u8, lo: u8) -> (v: i32)
    ensures
        v == sign_extend16(hi, lo),
{
    let u: i32 = (hi as i32) * 256 + (lo as i32);
    if u >= 0x8000 {
        u - 0x1_0000
    } else {
        u
    }
}

/// The two bytes that encode `num`, high byte first.
pub fn immediate_bytes(num: i32) -> (bytes: (u8, u8))
    ensures
        bytes.0 == high_byte(num),
        bytes.1 == low_byte(num),
{
    let low: i64 = if num < 0 {
        // -2^31 <= num < 0: adding 2^32 leaves the low sixteen bits as they are
        let shifted: i64 = num as i64 + 0x1_0000_0000;
        assert(shifted % 0x1_0000 == (num as int) % 0x1_0000);
        shifted % 0x1_0000
    } else {
        (num as i64) % 0x1_0000
    };
    ((low / 256) as u8, (low % 256) as u8)
}

/// The bits of `x` as an unsigned value.
pub fn reinterpret(x: i32) -> (u: u32)
    ensures
        u == as_unsigned(x as int),
{
    if x < 0 {
        (x as i64 + 0x1_0000_0000) as u32
    } else {
        x as u32
    }
}

/// Quotient and remainder of `a` by `b`, rounded toward zero; the one quotient
/// that does not fit, `i32::MIN / -1`, wraps around.
pub fn divide(a: i32, b: i32) -> (r: (i32, i32))
    requires
        b != 0,
    ensures
        r.0 == wrap32(trunc_div(a as int, b as int)),
        r.1 == trunc_rem(a as int, b as int),
{
    let wide_a: i64 = a as i64;
    let wide_b: i64 = b as i64;
    let ua: u64 = if wide_a < 0 {
        (-wide_a) as u64
    } else {
        wide_a as u64
    };
    let ub: u64 = if wide_b < 0 {
        (-wide_b) as u64
    } else {
        wide_b as u64
    };
    let q: u64 = ua / ub;
    let m: u64 = ua % ub;
    proof {
        lemma_div_pos_is_pos(ua as int, ub as int);
        lemma_div_nonincreasing(ua as int, ub as int);
        assert(0 <= q <= 0x8000_0000);
        assert(0 <= m < ub);
    }
    let quotient: i64 = if (a < 0) != (b < 0) {
        -(q as i64)
    } else {
        q as i64
    };
    let remainder: i64 = if a < 0 {
        -(m as i64)
    } else {
        m as i64
    };
    let wrapped: i32 = if quotient == 0x8000_0000 {
        i32::MIN
    } else {
        quotient as i32
    };
    (wrapped, remainder as i32)
}

/// The address that the value `v` of a register names.
pub fn address(v: i32) -> (target: usize)
    ensures
        target == wrap_address(v as int),
{
    if v >= 0 {
        proof {
            lemma_small_mod(v as nat, (usize::MAX + 1) as nat);
        }
        v as usize
    } else {
        let back: usize = (-(v + 1)) as usize;
        proof {
            lemma_mod_add_multiples_vanish(v as int, usize::MAX + 1);
            lemma_small_mod((v + usize::MAX + 1) as nat, (usize::MAX + 1) as nat);
        }
        usize::MAX - back
    }
}

/// The address `v` bytes after `pc`.
pub fn address_forward(pc: usize, v: i32) -> (target: usize)
    ensures
        target == wrap_address(pc + v),
{
    if v >= 0 {
        let step: usize = v as usize;
        if step <= usize::MAX - pc {
            proof {
                lemma_small_mod((pc + v) as nat, (usize::MAX + 1) as nat);
            }
            pc + step
        } else {
            proof {
                lemma_mod_sub_multiples_vanish(pc + v, usize::MAX + 1);
                lemma_small_mod((pc + v - usize::MAX - 1) as nat, (usize::MAX + 1) as nat);
            }
            step - (usize::MAX - pc) - 1
        }
    } else {
        let step: usize = (-(v + 1)) as usize + 1;
        if step <= pc {
            proof {
                lemma_small_mod((pc + v) as nat, (usize::MAX + 1) as nat);
            }
            pc - step
        } else {
            proof {
                lemma_mod_add_multiples_vanish(pc + v, usize::MAX + 1);
                lemma_small_mod((pc + v + usize::MAX + 1) as nat, (usize::MAX + 1) as nat);
            }
            usize::MAX - (step - pc - 1)
        }
    }
}

/// The address `v` bytes before `pc`.
pub fn address_backward(pc: usize, v: i32) -> (target: usize)
    ensures
        target == wrap_address(pc - v),
{
    if v == i32::MIN {
        let step: usize = 0x8000_0000;
        if step <= usize::MAX - pc {
            proof {
                lemma_small_mod((pc - v) as nat, (usize::MAX + 1) as nat);
            }
            pc + step
        } else {
            proof {
                lemma_mod_sub_multiples_vanish(pc - v, usize::MAX + 1);
                lemma_small_mod((pc - v - usize::MAX - 1) as nat, (usize::MAX + 1) as nat);
            }
            step - (usize::MAX - pc) - 1
        }
    } else {
        address_forward(pc, -v)
    }
}

} // verus!
