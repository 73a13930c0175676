use vstd::prelude::*;
use vstd::arithmetic::power::pow;

verus! {

/// A signed exact quantity: `sign * (num / den) * 10^exp`, with `sign`
/// negative when `neg` is set.  The value is zero exactly when `num == 0`.
///
/// Every value the engine handles is of this shape: parsed answers are
/// decimals (`den == 1`), generated operands are a mantissa in tenths times a
/// power of ten, and quotients of generated operands keep the divisor in
/// `den`.  The bounds in `wf` keep all cross products inside `u128`.
#[derive(Clone, Copy, Debug, PartialEq, Eq, Structural)]
pub struct Number {
    pub neg: bool,
    pub num: u64,
    pub den: u64,
    pub exp: i64,
}

/// 10^e as a mathematical integer.
pub open spec fn pow10(e: nat) -> int {
    pow(10, e)
}

/// Largest mantissa or divisor the engine carries: 18 decimal digits.
pub const MAX_MANT: u64 = 1_000_000_000_000_000_000;

/// Largest magnitude of a decimal exponent the engine carries.
pub const MAX_EXP: i64 = 1_000_000_000;

impl Number {
    pub open spec fn wf(self) -> bool {
        &&& 1 <= self.den <= MAX_MANT
        &&& self.num <= MAX_MANT
        &&& -MAX_EXP <= self.exp <= MAX_EXP
    }

    /// The value is strictly positive.
    pub open spec fn is_pos(self) -> bool {
        !self.neg && self.num >= 1
    }

    /// The value is zero or negative (the scoring sentinel domain).
    pub open spec fn nonpos(self) -> bool {
        self.neg || self.num == 0
    }

    /// Executable counterpart of `wf`, for callers outside the verified
    /// world.
    pub fn is_wf(&self) -> (r: bool)
        ensures
            r == self.wf(),
    {
        1 <= self.den && self.den <= MAX_MANT && self.num <= MAX_MANT && -MAX_EXP <= self.exp
            && self.exp <= MAX_EXP
    }

    /// Sign of the value: -1, 0 or 1.
    pub open spec fn sgn(self) -> int {
        if self.num == 0 {
            0
        } else if self.neg {
            -1
        } else {
            1
        }
    }
}

/// `x * 10^s`, with the scaling applied only when `s` is nonnegative; the
/// left side of the exact comparison of `x * 10^s` with `y`.
pub open spec fn side_l(x: int, s: int) -> int {
    if s >= 0 {
        x * pow10(s as nat)
    } else {
        x
    }
}

/// The right side of the exact comparison of `x * 10^s` with `y`: `y`, scaled
/// by `10^(-s)` when `s` is negative.
pub open spec fn side_r(y: int, s: int) -> int {
    if s >= 0 {
        y
    } else {
        y * pow10((-s) as nat)
    }
}

/// Left side of the exact cross comparison of the magnitudes |a| and |b|:
/// |a| < |b| iff `mag_l(a, b) < mag_r(a, b)`, both plain integers.
pub open spec fn mag_l(a: Number, b: Number) -> int {
    side_l(a.num * b.den, a.exp - b.exp)
}

/// Right side of the exact cross comparison of the magnitudes |a| and |b|.
pub open spec fn mag_r(a: Number, b: Number) -> int {
    side_r(b.num * a.den, a.exp - b.exp)
}

/// Exact value order: the value of `a` is strictly below the value of `b`.
pub open spec fn spec_lt(a: Number, b: Number) -> bool {
    ||| a.sgn() < b.sgn()
    ||| (a.sgn() == 1 && b.sgn() == 1 && mag_l(a, b) < mag_r(a, b))
    ||| (a.sgn() == -1 && b.sgn() == -1 && mag_l(a, b) > mag_r(a, b))
}

/// The two values are equal.
pub open spec fn spec_eq_val(a: Number, b: Number) -> bool {
    a.sgn() == b.sgn() && (a.sgn() == 0 || mag_l(a, b) == mag_r(a, b))
}

/// Exact three-way comparison of the two values.
pub fn cmp_number(a: &Number, b: &Number) -> (r: i8)
    requires
        a.wf(),
        b.wf(),
    ensures
        r == -1 <==> spec_lt(*a, *b),
        r == 1 <==> spec_lt(*b, *a),
        r == 0 <==> spec_eq_val(*a, *b),
        -1 <= r <= 1,
{
    let sa: i8 = if a.num == 0 {
        0
    } else if a.neg {
        -1
    } else {
        1
    };
    let sb: i8 = if b.num == 0 {
        0
    } else if b.neg {
        -1
    } else {
        1
    };
    if sa < sb {
        return -1;
    }
    if sa > sb {
        return 1;
    }
    if sa == 0 {
        return 0;
    }
    proof {
        crate::digits::lemma_pow10_vals();
        assert((a.num as int) * (b.den as int) >= 1 && (a.num as int) * (b.den as int) <= MAX_MANT
            * MAX_MANT) by (nonlinear_arith)
            requires
                1 <= a.num <= MAX_MANT,
                1 <= b.den <= MAX_MANT,
        ;
        assert((b.num as int) * (a.den as int) >= 1 && (b.num as int) * (a.den as int) <= MAX_MANT
            * MAX_MANT) by (nonlinear_arith)
            requires
                1 <= b.num <= MAX_MANT,
                1 <= a.den <= MAX_MANT,
        ;
    }
    let p: u128 = (a.num as u128) * (b.den as u128);
    let q: u128 = (b.num as u128) * (a.den as u128);
    let s: i128 = (a.exp - b.exp) as i128;
    let c: i8 = crate::digits::cmp_scaled(p, q, s);
    proof {
        assert(mag_l(*a, *b) == side_l(p as int, s as int));
        assert(mag_r(*a, *b) == side_r(q as int, s as int));
        crate::digits::lemma_side_swap(p as int, s as int);
        crate::digits::lemma_side_swap(q as int, s as int);
        assert(mag_l(*b, *a) == mag_r(*a, *b));
        assert(mag_r(*b, *a) == mag_l(*a, *b));
    }
    if sa == 1 {
        c
    } else {
        if c == 1 {
            -1
        } else if c == -1 {
            1
        } else {
            0
        }
    }
}

} // verus!
