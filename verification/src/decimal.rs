//! Exact decimal numbers for schema bounds and parsed JSON numbers.
//!
//! A [`Decimal`] is a fixed-point value: the real number `fixed / 10^12`.
//! Twelve fractional digits cover every bound and every literal the number
//! grammar can emit, since the grammar caps fractional digits at twelve and
//! refuses to grow a literal past `u32::MAX`; all comparisons are exact
//! integer comparisons, with no rounding anywhere.

use vstd::prelude::*;

verus! {

/// Number of fractional digits a `Decimal` carries exactly.
pub const DECIMAL_DIGITS: u32 = 12;

/// `10^DECIMAL_DIGITS`: the denominator of the fixed-point representation.
pub const DECIMAL_ONE: i128 = 1_000_000_000_000;

pub open spec fn pow10(n: nat) -> int
    decreases n,
{
    if n == 0 {
        1
    } else {
        10 * pow10((n - 1) as nat)
    }
}

pub proof fn lemma_pow10_pos(n: nat)
    ensures
        pow10(n) >= 1,
    decreases n,
{
    if n > 0 {
        lemma_pow10_pos((n - 1) as nat);
    }
}

pub proof fn lemma_pow10_adds(a: nat, b: nat)
    ensures
        pow10(a) * pow10(b) == pow10(a + b),
    decreases a,
{
    if a == 0 {
        assert(pow10(0) * pow10(b) == pow10(b));
    } else {
        lemma_pow10_adds((a - 1) as nat, b);
        assert(pow10(a) * pow10(b) == 10 * pow10((a - 1) as nat) * pow10(b))
            by (nonlinear_arith)
            requires
                pow10(a) == 10 * pow10((a - 1) as nat),
        ;
        assert(10 * pow10((a - 1) as nat) * pow10(b) == 10 * (pow10((a - 1) as nat) * pow10(b)))
            by (nonlinear_arith);
        assert((a - 1) + b == a + b - 1);
        assert(pow10((a + b - 1) as nat) * 10 == pow10(a + b));
    }
}

/// `10^n` for small `n`, as an `i128`.
pub fn pow10_i128(n: u32) -> (r: i128)
    requires
        n <= 12,
    ensures
        r == pow10(n as nat),
{
    proof {
        reveal_with_fuel(pow10, 13);
    }
    match n {
        0 => 1,
        1 => 10,
        2 => 100,
        3 => 1_000,
        4 => 10_000,
        5 => 100_000,
        6 => 1_000_000,
        7 => 10_000_000,
        8 => 100_000_000,
        9 => 1_000_000_000,
        10 => 10_000_000_000,
        11 => 100_000_000_000,
        _ => 1_000_000_000_000,
    }
}

/// `10^n` for small `n`, as a `u128`.
pub fn pow10_u128(n: u32) -> (r: u128)
    requires
        n <= 12,
    ensures
        r == pow10(n as nat),
{
    proof {
        reveal_with_fuel(pow10, 13);
    }
    match n {
        0 => 1,
        1 => 10,
        2 => 100,
        3 => 1_000,
        4 => 10_000,
        5 => 100_000,
        6 => 1_000_000,
        7 => 10_000_000,
        8 => 100_000_000,
        9 => 1_000_000_000,
        10 => 10_000_000_000,
        11 => 100_000_000_000,
        _ => 1_000_000_000_000,
    }
}

/// An exact decimal: the real number `fixed / 10^12`.
#[derive(Debug, Clone, Copy, PartialEq, Eq)]
pub struct Decimal {
    fixed: i128,
}

impl Decimal {
    /// The fixed-point representation: this decimal times `10^12`.
    pub closed spec fn scaled(self) -> int {
        self.fixed as int
    }

    /// The whole number `n`.
    pub fn from_int(n: i64) -> (r: Decimal)
        ensures
            r.scaled() == n * DECIMAL_ONE,
    {
        Decimal { fixed: (n as i128) * DECIMAL_ONE }
    }

    /// The decimal `int_part.frac`, where `frac` is read as `frac_digits`
    /// fractional digits, negated when `negative` is set. For example,
    /// `(true, 0, 32, 2)` is `-0.32`.
    pub fn from_parts(negative: bool, int_part: u32, frac: u64, frac_digits: u32) -> (r: Decimal)
        requires
            frac_digits <= 12,
            frac < pow10(frac_digits as nat),
        ensures
            r.scaled() == (if negative {
                -1
            } else {
                1
            }) * (int_part * DECIMAL_ONE + frac * pow10((12 - frac_digits) as nat)),
    {
        let shift = pow10_i128(12 - frac_digits);
        proof {
            reveal_with_fuel(pow10, 13);
            assert(pow10(12nat) == 1_000_000_000_000int);
            lemma_pow10_pos((12 - frac_digits) as nat);
            lemma_pow10_pos(frac_digits as nat);
            lemma_pow10_adds(frac_digits as nat, (12 - frac_digits) as nat);
            assert((frac as int) * pow10((12 - frac_digits) as nat) < pow10(frac_digits as nat)
                * pow10((12 - frac_digits) as nat) && (frac as int) * pow10(
                (12 - frac_digits) as nat,
            ) >= 0) by (nonlinear_arith)
                requires
                    0 <= frac < pow10(frac_digits as nat),
                    pow10((12 - frac_digits) as nat) >= 1,
            ;
        }
        let mag: i128 = (int_part as i128) * DECIMAL_ONE + (frac as i128) * shift;
        proof {
            assert(mag == int_part * DECIMAL_ONE + frac * pow10((12 - frac_digits) as nat));
        }
        let fixed: i128 = if negative {
            -mag
        } else {
            mag
        };
        proof {
            let ghost m: int = int_part * DECIMAL_ONE + frac * pow10((12 - frac_digits) as nat);
            if negative {
                assert(fixed == -m);
                assert(-1int * m == -m) by (nonlinear_arith);
            } else {
                assert(fixed == m);
                assert(1int * m == m) by (nonlinear_arith);
            }
        }
        Decimal { fixed }
    }

    /// Raw fixed-point value, for callers that convert to other formats.
    pub fn to_fixed(&self) -> (r: i128)
        ensures
            r == self.scaled(),
    {
        self.fixed
    }

    /// A decimal from a raw fixed-point value.
    pub fn from_fixed(fixed: i128) -> (r: Decimal)
        ensures
            r.scaled() == fixed,
    {
        Decimal { fixed }
    }

    pub fn le(&self, other: &Decimal) -> (r: bool)
        ensures
            r == (self.scaled() <= other.scaled()),
    {
        self.fixed <= other.fixed
    }

    pub fn lt(&self, other: &Decimal) -> (r: bool)
        ensures
            r == (self.scaled() < other.scaled()),
    {
        self.fixed < other.fixed
    }
}

} // verus!

verus! {

pub proof fn lemma_pow10_mono(a: nat, b: nat)
    requires
        a <= b,
    ensures
        pow10(a) <= pow10(b),
    decreases b,
{
    if a < b {
        lemma_pow10_mono(a, (b - 1) as nat);
        lemma_pow10_pos((b - 1) as nat);
    }
}

} // verus!
