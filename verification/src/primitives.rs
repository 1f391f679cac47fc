//! Deterministic numeric wrappers with overflow protection.

use vstd::prelude::*;
use crate::errors::{FoundationError, FoundationResult, is_overflow};
use crate::text::{dec_int, i64_to_dec, concat2, to_owned_string, append_i64_dec, append_u64_dec, dec_nat};
use vstd::arithmetic::power::pow;

verus! {

/// A 64-bit signed integer whose arithmetic never wraps silently: every
/// operation reports overflow as an error.
#[derive(Debug, Clone, Copy, PartialEq, Eq, Structural, PartialOrd, Ord, Hash)]
pub struct SafeInteger(pub i64);

/// Quotient of `a / b` rounded toward zero, as Rust's integer division does.
pub open spec fn trunc_div(a: int, b: int) -> int {
    if a == 0 {
        0
    } else if a > 0 && b > 0 {
        a / b
    } else if a < 0 && b < 0 {
        (a * -1) / (b * -1)
    } else if a < 0 {
        ((a * -1) / b) * -1
    } else {
        (a / (b * -1)) * -1
    }
}

/// Remainder of `a / b` with the sign of `a`, as Rust's `%` computes it.
pub open spec fn trunc_rem(a: int, b: int) -> int {
    if a == 0 {
        0
    } else if a > 0 && b > 0 {
        a % b
    } else if a < 0 && b < 0 {
        ((a * -1) % (b * -1)) * -1
    } else if a < 0 {
        ((a * -1) % b) * -1
    } else {
        a % (b * -1)
    }
}

/// Whether `v` fits in an `i64`.
pub open spec fn fits_i64(v: int) -> bool {
    i64::MIN <= v <= i64::MAX
}

/// Bounds of a quotient of naturals: `0 <= x / y <= x`, and at most half of
/// `x` when `y >= 2`.
proof fn lemma_quotient_bounds(x: int, y: int)
    requires
        x >= 0,
        y >= 1,
    ensures
        0 <= x / y <= x,
        y == 1 ==> x / y == x,
        y >= 2 ==> 2 * (x / y) <= x,
{
    let q = x / y;
    let r = x % y;
    vstd::arithmetic::div_mod::lemma_fundamental_div_mod(x, y);
    assert(0 <= r < y);
    assert(0 <= q <= x && (y >= 2 ==> 2 * q <= x)) by (nonlinear_arith)
        requires
            x == y * q + r,
            0 <= r < y,
            x >= 0,
            y >= 1,
    ;
    if y == 1 {
        assert(x == q + r);
    }
}

/// Dividing two 64-bit integers overflows only for `i64::MIN / -1`: for
/// every other nonzero divisor the quotient rounded toward zero fits.
pub proof fn lemma_div_overflows_only_min_by_minus_one(a: i64, b: i64)
    requires
        b != 0,
    ensures
        fits_i64(trunc_div(a as int, b as int)) <==> !(a == i64::MIN && b == -1),
{
    let x = a as int;
    let y = b as int;
    if x > 0 && y > 0 {
        lemma_quotient_bounds(x, y);
    } else if x < 0 && y < 0 {
        lemma_quotient_bounds(x * -1, y * -1);
    } else if x < 0 {
        lemma_quotient_bounds(x * -1, y);
    } else if x > 0 {
        lemma_quotient_bounds(x, y * -1);
    }
}


/// The overflow message `"<a> <op> <b> overflows"`.
pub open spec fn binop_overflow_msg(a: int, op: Seq<char>, b: int) -> Seq<char> {
    dec_int(a) + " "@ + op + " "@ + dec_int(b) + " overflows"@
}

fn binop_overflow(a: i64, op: &str, b: i64) -> (e: FoundationError)
    ensures
        e matches FoundationError::Overflow(m) && m@ == binop_overflow_msg(a as int, op@, b as int),
{
    let mut s = i64_to_dec(a);
    s.append(" ");
    s.append(op);
    s.append(" ");
    append_i64_dec(&mut s, b);
    s.append(" overflows");
    FoundationError::Overflow(s)
}

impl View for SafeInteger {
    type V = i64;

    open spec fn view(&self) -> i64 {
        self.0
    }
}

impl SafeInteger {
    /// The decimal rendering of the value.
    pub fn display_string(&self) -> (s: String)
        ensures
            s@ == dec_int(self@ as int),
    {
        i64_to_dec(self.0)
    }

    /// The value zero.
    pub fn zero() -> (r: SafeInteger)
        ensures
            r@ == 0,
    {
        SafeInteger(0)
    }

    /// The value one.
    pub fn one() -> (r: SafeInteger)
        ensures
            r@ == 1,
    {
        SafeInteger(1)
    }

    /// The smallest value, `i64::MIN`.
    pub fn min_value() -> (r: SafeInteger)
        ensures
            r@ == i64::MIN,
    {
        SafeInteger(i64::MIN)
    }

    /// The largest value, `i64::MAX`.
    pub fn max_value() -> (r: SafeInteger)
        ensures
            r@ == i64::MAX,
    {
        SafeInteger(i64::MAX)
    }

    /// Wraps an `i64`.
    pub fn new(value: i64) -> (r: SafeInteger)
        ensures
            r@ == value,
    {
        SafeInteger(value)
    }

    /// The inner `i64`.
    pub fn value(&self) -> (v: i64)
        ensures
            v == self@,
    {
        self.0
    }

    /// Checked addition.
    pub fn checked_add(&self, rhs: SafeInteger) -> (r: FoundationResult<SafeInteger>)
        ensures
            r is Ok <==> fits_i64(self@ + rhs@),
            r matches Ok(v) ==> v@ == self@ + rhs@,
            r is Err ==> is_overflow(r, binop_overflow_msg(self@ as int, "+"@, rhs@ as int)),
    {
        match self.0.checked_add(rhs.0) {
            Some(v) => Ok(SafeInteger(v)),
            None => Err(binop_overflow(self.0, "+", rhs.0)),
        }
    }

    /// Checked subtraction.
    pub fn checked_sub(&self, rhs: SafeInteger) -> (r: FoundationResult<SafeInteger>)
        ensures
            r is Ok <==> fits_i64(self@ - rhs@),
            r matches Ok(v) ==> v@ == self@ - rhs@,
            r is Err ==> is_overflow(r, binop_overflow_msg(self@ as int, "-"@, rhs@ as int)),
    {
        match self.0.checked_sub(rhs.0) {
            Some(v) => Ok(SafeInteger(v)),
            None => Err(binop_overflow(self.0, "-", rhs.0)),
        }
    }

    /// Checked multiplication.
    pub fn checked_mul(&self, rhs: SafeInteger) -> (r: FoundationResult<SafeInteger>)
        ensures
            r is Ok <==> fits_i64(self@ * rhs@),
            r matches Ok(v) ==> v@ == self@ * rhs@,
            r is Err ==> is_overflow(r, binop_overflow_msg(self@ as int, "*"@, rhs@ as int)),
    {
        match self.0.checked_mul(rhs.0) {
            Some(v) => Ok(SafeInteger(v)),
            None => Err(binop_overflow(self.0, "*", rhs.0)),
        }
    }

    /// Checked division, rounding toward zero.  Division by zero and
    /// `MIN / -1` are errors.
    pub fn checked_div(&self, rhs: SafeInteger) -> (r: FoundationResult<SafeInteger>)
        ensures
            r is Ok <==> rhs@ != 0 && fits_i64(trunc_div(self@ as int, rhs@ as int)),
            r matches Ok(v) ==> v@ == trunc_div(self@ as int, rhs@ as int),
            rhs@ == 0 ==> is_overflow(r, "division by zero"@),
            rhs@ != 0 && r is Err ==> is_overflow(r, binop_overflow_msg(self@ as int, "/"@, rhs@ as int)),
    {
        if rhs.0 == 0 {
            return Err(FoundationError::Overflow(to_owned_string("division by zero")));
        }
        match self.0.checked_div(rhs.0) {
            Some(v) => Ok(SafeInteger(v)),
            None => Err(binop_overflow(self.0, "/", rhs.0)),
        }
    }

    /// Checked remainder (sign of the dividend).  Remainder by zero and
    /// `MIN % -1` are errors.
    pub fn checked_rem(&self, rhs: SafeInteger) -> (r: FoundationResult<SafeInteger>)
        ensures
            r is Ok <==> rhs@ != 0 && !(self@ == i64::MIN && rhs@ == -1),
            r matches Ok(v) ==> v@ == trunc_rem(self@ as int, rhs@ as int),
            rhs@ == 0 ==> is_overflow(r, "remainder by zero"@),
            rhs@ != 0 && r is Err ==> is_overflow(r, binop_overflow_msg(self@ as int, "%"@, rhs@ as int)),
    {
        if rhs.0 == 0 {
            return Err(FoundationError::Overflow(to_owned_string("remainder by zero")));
        }
        match self.0.checked_rem(rhs.0) {
            Some(v) => Ok(SafeInteger(v)),
            None => Err(binop_overflow(self.0, "%", rhs.0)),
        }
    }

    /// Checked negation.
    pub fn checked_neg(&self) -> (r: FoundationResult<SafeInteger>)
        ensures
            r is Ok <==> self@ != i64::MIN,
            r matches Ok(v) ==> v@ == -self@,
            r is Err ==> is_overflow(r, "-("@ + dec_int(self@ as int) + ") overflows"@),
    {
        if self.0 == i64::MIN {
            let mut s = to_owned_string("-(");
            append_i64_dec(&mut s, self.0);
            s.append(") overflows");
            Err(FoundationError::Overflow(s))
        } else {
            Ok(SafeInteger(-self.0))
        }
    }

    /// Checked absolute value.
    pub fn checked_abs(&self) -> (r: FoundationResult<SafeInteger>)
        ensures
            r is Ok <==> self@ != i64::MIN,
            r matches Ok(v) ==> v@ == (if self@ < 0 { -self@ } else { self@ as int }),
            r is Err ==> is_overflow(r, "abs("@ + dec_int(self@ as int) + ") overflows"@),
    {
        if self.0 == i64::MIN {
            let mut s = to_owned_string("abs(");
            append_i64_dec(&mut s, self.0);
            s.append(") overflows");
            Err(FoundationError::Overflow(s))
        } else if self.0 < 0 {
            Ok(SafeInteger(-self.0))
        } else {
            Ok(SafeInteger(self.0))
        }
    }

    /// Checked exponentiation.
    pub fn checked_pow(&self, exp: u32) -> (r: FoundationResult<SafeInteger>)
        ensures
            r is Ok <==> fits_i64(pow(self@ as int, exp as nat)),
            r matches Ok(v) ==> v@ == pow(self@ as int, exp as nat),
            r is Err ==> is_overflow(r, dec_int(self@ as int) + "^"@ + dec_nat(exp as nat) + " overflows"@),
    {
        let base = self.0;
        let mut acc: i64 = 1;
        let mut k: u32 = 0;
        proof {
            vstd::arithmetic::power::lemma_pow0(base as int);
        }
        if base == 0 || base == 1 || base == -1 {
            while k < exp
                invariant
                    base == self.0,
                    base == 0 || base == 1 || base == -1,
                    k <= exp,
                    acc == pow(base as int, k as nat),
                    acc == 0 || acc == 1 || acc == -1,
                decreases exp - k,
            {
                proof {
                    vstd::arithmetic::power::lemma_pow_adds(base as int, k as nat, 1);
                    vstd::arithmetic::power::lemma_pow1(base as int);
                }
                acc = acc * base;
                k = k + 1;
            }
            return Ok(SafeInteger(acc));
        }
        while k < exp
            invariant
                base == self.0,
                base != 0 && base != 1 && base != -1,
                k <= exp,
                acc == pow(base as int, k as nat),
            decreases exp - k,
        {
            proof {
                vstd::arithmetic::power::lemma_pow_adds(base as int, k as nat, 1);
                vstd::arithmetic::power::lemma_pow1(base as int);
            }
            match acc.checked_mul(base) {
                Some(v) => {
                    acc = v;
                }
                None => {
                    proof {
                        lemma_pow_grows_out(base as int, (k + 1) as nat, exp as nat);
                    }
                    let mut s = i64_to_dec(base);
                    s.append("^");
                    append_u64_dec(&mut s, exp as u64);
                    s.append(" overflows");
                    return Err(FoundationError::Overflow(s));
                }
            }
            k = k + 1;
        }
        Ok(SafeInteger(acc))
    }
}

/// Checked subtraction undoes checked addition: when `a + b` fits, so does
/// `(a + b) - b`, and it is `a`; likewise negation twice, where it fits.
pub proof fn lemma_add_then_sub(a: i64, b: i64)
    requires
        fits_i64(a + b),
    ensures
        fits_i64((a + b) - b),
        (a + b) - b == a,
        a != i64::MIN ==> fits_i64(-a) && fits_i64(-(-a)) && -(-a) == a,
{
}

/// Once a power of a base of magnitude at least 2 leaves the `i64` range,
/// every higher power stays outside it.
proof fn lemma_pow_grows_out(b: int, k: nat, e: nat)
    requires
        b != 0 && b != 1 && b != -1,
        k <= e,
        !fits_i64(pow(b, k)),
    ensures
        !fits_i64(pow(b, e)),
    decreases e - k,
{
    if k < e {
        lemma_pow_abs_step(b, k);
        lemma_pow_grows_out(b, k + 1, e);
    }
}

proof fn lemma_pow_abs_step(b: int, k: nat)
    requires
        b != 0 && b != 1 && b != -1,
        !fits_i64(pow(b, k)),
    ensures
        !fits_i64(pow(b, k + 1)),
{
    vstd::arithmetic::power::lemma_pow_adds(b, k, 1);
    vstd::arithmetic::power::lemma_pow1(b);
    let p = pow(b, k);
    assert(pow(b, k + 1) == p * b);
    if p > i64::MAX {
        if b >= 2 {
            assert(p * b >= p * 2) by (nonlinear_arith) requires p > 0, b >= 2;
        } else {
            assert(b <= -2);
            assert(p * b <= p * -2) by (nonlinear_arith) requires p > 0, b <= -2;
        }
    } else {
        assert(p < i64::MIN);
        if b >= 2 {
            assert(p * b <= p * 2) by (nonlinear_arith) requires p < 0, b >= 2;
        } else {
            assert(p * b >= p * -2) by (nonlinear_arith) requires p < 0, b <= -2;
        }
    }
}

impl From<i64> for SafeInteger {
    fn from(v: i64) -> (r: Self) {
        SafeInteger(v)
    }
}

impl vstd::std_specs::convert::FromSpecImpl<i64> for SafeInteger {
    open spec fn obeys_from_spec() -> bool {
        true
    }

    open spec fn from_spec(v: i64) -> Self {
        SafeInteger(v)
    }
}

impl From<i32> for SafeInteger {
    fn from(v: i32) -> (r: Self) {
        SafeInteger(v as i64)
    }
}

impl vstd::std_specs::convert::FromSpecImpl<i32> for SafeInteger {
    open spec fn obeys_from_spec() -> bool {
        true
    }

    open spec fn from_spec(v: i32) -> Self {
        SafeInteger(v as i64)
    }
}

impl From<SafeInteger> for i64 {
    fn from(v: SafeInteger) -> (r: i64) {
        v.0
    }
}

impl vstd::std_specs::convert::FromSpecImpl<SafeInteger> for i64 {
    open spec fn obeys_from_spec() -> bool {
        true
    }

    open spec fn from_spec(v: SafeInteger) -> i64 {
        v.0
    }
}

/// The IEEE-754 bit pattern of a finite `f64`.  The library carries such
/// values (edge weights, percentages, float properties) without computing
/// with them; floating-point arithmetic lives with the application.
#[derive(Debug, Clone, Copy, PartialEq, Eq, Structural, Hash)]
pub struct FloatBits(pub u64);

impl FloatBits {
    /// Wraps a bit pattern.
    pub fn from_bits(bits: u64) -> (r: FloatBits)
        ensures
            r.0 == bits,
    {
        FloatBits(bits)
    }

    /// The wrapped bit pattern.
    pub fn bits(&self) -> (b: u64)
        ensures
            b == self.0,
    {
        self.0
    }
}

} // verus!
