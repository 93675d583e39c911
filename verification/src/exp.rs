//! The exponential weight function of the softmax.
//!
//! `weight_of` approximates `e^x` for a bit-pattern argument, built from
//! the trusted IEEE primitives and plain bit manipulation: the argument is
//! scaled by `log2(e)`, split into integer and fractional parts, the
//! fractional power of two is evaluated as a truncated Taylor series of
//! `e^(f·ln 2)`, and the integer part is applied to the exponent field.
//! The spec function `weight_bits` states the computation exactly, step
//! for step, so the normalizer's contracts pin every probability to the
//! logits.

use vstd::prelude::*;
use crate::num::{
    add_bits, finite_bits, is_finite, is_nan, mul_bits, nan_bits, num_add, num_mul, num_sub,
    sub_bits, MAGNITUDE_MASK,
};

verus! {

/// Bits of `log2(e)`.
pub const LOG2E_BITS: u64 = 0x3ff71547652b82fe;

/// Bits of `ln 2`.
pub const LN2_BITS: u64 = 0x3fe62e42fefa39ef;

/// Bits of a quiet NaN.
pub const NAN_BITS: u64 = 0x7ff8000000000000;

/// Bits of positive infinity.
pub const INFINITY_BITS: u64 = 0x7ff0000000000000;

/// Bits of one.
pub const ONE_BITS: u64 = 0x3ff0000000000000;

/// The mantissa field.
pub const MANTISSA_MASK: u64 = 0x000f_ffff_ffff_ffff;

/// Reciprocal factorials `1/2! .. 1/8!`, the Taylor tail of `e^y`.
pub const TAYLOR_2: u64 = 0x3fe0000000000000;
pub const TAYLOR_3: u64 = 0x3fc5555555555555;
pub const TAYLOR_4: u64 = 0x3fa5555555555555;
pub const TAYLOR_5: u64 = 0x3f81111111111111;
pub const TAYLOR_6: u64 = 0x3f56c16c16c16c17;
pub const TAYLOR_7: u64 = 0x3f2a01a01a01a01a;
pub const TAYLOR_8: u64 = 0x3efa01a01a01a01a;

/// The position of the highest set bit of a small magnitude.
pub open spec fn top_bit(mag: u64) -> u64 {
    if mag >= 4096 {
        12
    } else if mag >= 2048 {
        11
    } else if mag >= 1024 {
        10
    } else if mag >= 512 {
        9
    } else if mag >= 256 {
        8
    } else if mag >= 128 {
        7
    } else if mag >= 64 {
        6
    } else if mag >= 32 {
        5
    } else if mag >= 16 {
        4
    } else if mag >= 8 {
        3
    } else if mag >= 4 {
        2
    } else if mag >= 2 {
        1
    } else {
        0
    }
}

/// The bits of the double equal to a small integer.
pub open spec fn small_int_bits(n: i64) -> u64 {
    if n == 0 {
        0
    } else {
        let neg = n < 0;
        let mag = if neg {
            (-n) as u64
        } else {
            n as u64
        };
        let p = top_bit(mag);
        let mantissa = (mag << ((52 - p) as u64)) & MANTISSA_MASK;
        let sign: u64 = if neg {
            1u64 << 63
        } else {
            0
        };
        sign | (((1023 + p) as u64) << 52) | mantissa
    }
}

fn small_int(n: i64) -> (r: u64)
    requires
        -4096 <= n <= 4096,
    ensures
        r == small_int_bits(n),
{
    if n == 0 {
        return 0;
    }
    let neg: bool = n < 0;
    let mag: u64 = if neg {
        (-n) as u64
    } else {
        n as u64
    };
    let p: u64 = if mag >= 4096 {
        12
    } else if mag >= 2048 {
        11
    } else if mag >= 1024 {
        10
    } else if mag >= 512 {
        9
    } else if mag >= 256 {
        8
    } else if mag >= 128 {
        7
    } else if mag >= 64 {
        6
    } else if mag >= 32 {
        5
    } else if mag >= 16 {
        4
    } else if mag >= 8 {
        3
    } else if mag >= 4 {
        2
    } else if mag >= 2 {
        1
    } else {
        0
    };
    let mantissa: u64 = (mag << ((52 - p) as u64)) & MANTISSA_MASK;
    let sign: u64 = if neg {
        1u64 << 63
    } else {
        0
    };
    sign | ((1023 + p) << 52) | mantissa
}

/// `floor` of the double `t` encodes, for exponent fields below 1034 (a
/// magnitude under 2048).
pub open spec fn floor_bits(t: u64) -> i64 {
    let biased = (t >> 52) & 0x7ff;
    let neg = (t >> 63) == 1;
    if biased < 1023 {
        if neg && (t & MAGNITUDE_MASK) != 0 {
            (-1) as i64
        } else {
            0
        }
    } else {
        let e = biased - 1023;
        let full = (1u64 << 52) | (t & MANTISSA_MASK);
        let shift = (52 - e) as u64;
        let wide = full >> shift;
        let ipart = if wide > 2047 {
            2047
        } else {
            wide
        };
        let frac = full & (((1u64 << shift) - 1) as u64);
        if !neg {
            ipart as i64
        } else if frac != 0 {
            (-(ipart as int) - 1) as i64
        } else {
            (-(ipart as int)) as i64
        }
    }
}

fn floor_small(t: u64) -> (n: i64)
    requires
        ((t >> 52) & 0x7ff) < 1034,
    ensures
        n == floor_bits(t),
        -4096 <= n <= 4096,
{
    let biased: u64 = (t >> 52) & 0x7ff;
    let neg: bool = (t >> 63) == 1;
    if biased < 1023 {
        // magnitude below one
        if neg && (t & MAGNITUDE_MASK) != 0 {
            -1
        } else {
            0
        }
    } else {
        let e: u64 = biased - 1023;  // 0 ..= 10
        let full: u64 = (1u64 << 52) | (t & MANTISSA_MASK);
        let shift: u64 = (52 - e) as u64;  // 42 ..= 52
        let wide: u64 = full >> shift;
        let ipart: u64 = if wide > 2047 {
            2047
        } else {
            wide
        };
        assert(1u64 << shift >= 1) by (bit_vector)
            requires
                shift <= 52,
        ;
        let frac: u64 = full & ((1u64 << shift) - 1);
        if !neg {
            ipart as i64
        } else if frac != 0 {
            -(ipart as i64) - 1
        } else {
            -(ipart as i64)
        }
    }
}

/// The softmax weight of a logit, stated exactly: the computation of
/// `weight_of`, step for step, over the named IEEE operations.
pub open spec fn weight_bits(x: u64) -> u64 {
    if nan_bits(x) {
        NAN_BITS
    } else if !finite_bits(x) {
        if (x >> 63) == 1 {
            0
        } else {
            INFINITY_BITS
        }
    } else {
        let t = mul_bits(x, LOG2E_BITS);
        let biased = (t >> 52) & 0x7ff;
        let neg_t = (t >> 63) == 1;
        if biased >= 1034 {
            if neg_t {
                0
            } else {
                INFINITY_BITS
            }
        } else {
            let n = floor_bits(t);
            let f = sub_bits(t, small_int_bits(n));
            let y = mul_bits(f, LN2_BITS);
            let a7 = add_bits(mul_bits(TAYLOR_8, y), TAYLOR_7);
            let a6 = add_bits(mul_bits(a7, y), TAYLOR_6);
            let a5 = add_bits(mul_bits(a6, y), TAYLOR_5);
            let a4 = add_bits(mul_bits(a5, y), TAYLOR_4);
            let a3 = add_bits(mul_bits(a4, y), TAYLOR_3);
            let a2 = add_bits(mul_bits(a3, y), TAYLOR_2);
            let a1 = add_bits(mul_bits(a2, y), ONE_BITS);
            let p = add_bits(mul_bits(a1, y), ONE_BITS);
            let pe = ((p >> 52) & 0x7ff) as i64;
            let se = pe + n;
            if se <= 0 {
                0
            } else if se >= 2047 {
                INFINITY_BITS
            } else {
                ((se as u64) << 52) | (p & MANTISSA_MASK)
            }
        }
    }
}

/// The softmax weight of a logit: an approximation of `e^x`.  NaN begets
/// NaN; an argument far below zero underflows to zero; one far above
/// overflows to infinity.
pub fn weight_of(x: u64) -> (r: u64)
    ensures
        r == weight_bits(x),
{
    if is_nan(x) {
        return NAN_BITS;
    }
    if !is_finite(x) {
        if (x >> 63) == 1 {
            return 0;
        } else {
            return INFINITY_BITS;
        }
    }
    let t = num_mul(x, LOG2E_BITS);
    let biased: u64 = (t >> 52) & 0x7ff;
    let neg_t: bool = (t >> 63) == 1;
    if biased >= 1034 {
        // |t| is at least 2048 (or not finite): the result under- or
        // overflows either way.
        if neg_t {
            return 0;
        } else {
            return INFINITY_BITS;
        }
    }
    let n: i64 = floor_small(t);
    let nd: u64 = small_int(n);
    let f: u64 = num_sub(t, nd);
    // 2^f as e^(f ln 2), by an eighth-degree Taylor polynomial in Horner
    // form.
    let y: u64 = num_mul(f, LN2_BITS);
    let mut acc: u64 = TAYLOR_8;
    acc = num_add(num_mul(acc, y), TAYLOR_7);
    acc = num_add(num_mul(acc, y), TAYLOR_6);
    acc = num_add(num_mul(acc, y), TAYLOR_5);
    acc = num_add(num_mul(acc, y), TAYLOR_4);
    acc = num_add(num_mul(acc, y), TAYLOR_3);
    acc = num_add(num_mul(acc, y), TAYLOR_2);
    acc = num_add(num_mul(acc, y), ONE_BITS);
    acc = num_add(num_mul(acc, y), ONE_BITS);
    // scale by 2^n through the exponent field
    assert(((acc >> 52) & 0x7ff) <= 0x7ff) by (bit_vector);
    let pe: i64 = ((acc >> 52) & 0x7ff) as i64;
    let se: i64 = pe + n;
    if se <= 0 {
        return 0;
    }
    if se >= 2047 {
        return INFINITY_BITS;
    }
    ((se as u64) << 52) | (acc & MANTISSA_MASK)
}

} // verus!
