//! Integer helpers: greatest common divisor, least common multiple,
//! clamping and checked sums.

use vstd::prelude::*;
use crate::errors::{FoundationError, FoundationResult, is_overflow, is_validation_failed};
use crate::primitives::{SafeInteger, fits_i64, trunc_div, binop_overflow_msg};
use crate::text::{dec_int, to_owned_string};

verus! {

/// Euclid's greatest common divisor of two naturals (`gcd(a, 0) = a`).
pub open spec fn gcd_spec(a: nat, b: nat) -> nat
    decreases b,
{
    if b == 0 {
        a
    } else {
        gcd_spec(b, a % b)
    }
}

/// The absolute value.
pub open spec fn abs_int(v: int) -> int {
    if v < 0 { -v } else { v }
}

/// The message of the error for `abs(i64::MIN)`.
pub open spec fn abs_overflow_msg(v: int) -> Seq<char> {
    "abs("@ + dec_int(v) + ") overflows"@
}

/// `gcd_spec(a, b)` divides both `a` and `b`, and every common divisor of
/// `a` and `b` divides it.
pub proof fn lemma_gcd_divides(a: nat, b: nat, d: nat)
    ensures
        gcd_spec(a, b) > 0 ==> a % gcd_spec(a, b) == 0 && b % gcd_spec(a, b) == 0,
        d > 0 && a % d == 0 && b % d == 0 ==> gcd_spec(a, b) % d == 0,
        gcd_spec(a, b) == 0 <==> a == 0 && b == 0,
    decreases b,
{
    if b == 0 {
        if a > 0 {
            vstd::arithmetic::div_mod::lemma_mod_self_0(a as int);
            vstd::arithmetic::div_mod::lemma_small_mod(0, a);
        }
    } else {
        let r = a % b;
        lemma_gcd_divides(b, r, d);
        let g = gcd_spec(b, r);
        let q = (a / b) as int;
        vstd::arithmetic::div_mod::lemma_fundamental_div_mod(a as int, b as int);
        assert(a as int == b * q + r);
        if g > 0 {
            let bg = b as int / g as int;
            let rg = r as int / g as int;
            vstd::arithmetic::div_mod::lemma_fundamental_div_mod(b as int, g as int);
            vstd::arithmetic::div_mod::lemma_fundamental_div_mod(r as int, g as int);
            assert(a as int == (q * bg + rg) * g) by (nonlinear_arith)
                requires
                    a as int == b * q + r,
                    b as int == g * bg,
                    r as int == g * rg,
            ;
            vstd::arithmetic::div_mod::lemma_mod_multiples_basic(q * bg + rg, g as int);
        }
        if d > 0 && a % d == 0 && b % d == 0 {
            let ad = a as int / d as int;
            let bd = b as int / d as int;
            vstd::arithmetic::div_mod::lemma_fundamental_div_mod(a as int, d as int);
            vstd::arithmetic::div_mod::lemma_fundamental_div_mod(b as int, d as int);
            assert(r as int == (ad - bd * q) * d) by (nonlinear_arith)
                requires
                    a as int == b * q + r,
                    a as int == d * ad,
                    b as int == d * bd,
            ;
            vstd::arithmetic::div_mod::lemma_mod_multiples_basic(ad - bd * q, d as int);
        }
        if g == 0 {
            vstd::arithmetic::div_mod::lemma_mod_self_0(b as int);
        }
    }
}

/// The greatest common divisor of `|a|` and `|b|` (Euclid's algorithm).
/// `i64::MIN` has no absolute value in range: an argument equal to it is
/// an overflow error (the first such argument is reported).
pub fn gcd(a: SafeInteger, b: SafeInteger) -> (r: FoundationResult<SafeInteger>)
    ensures
        r is Ok <==> a@ != i64::MIN && b@ != i64::MIN,
        r matches Ok(g) ==> g@ == gcd_spec(abs_int(a@ as int) as nat, abs_int(b@ as int) as nat),
        a@ == i64::MIN ==> is_overflow(r, abs_overflow_msg(a@ as int)),
        a@ != i64::MIN && b@ == i64::MIN ==> is_overflow(r, abs_overflow_msg(b@ as int)),
{
    let mut x = match a.checked_abs() {
        Ok(v) => v,
        Err(e) => return Err(e),
    };
    let mut y = match b.checked_abs() {
        Ok(v) => v,
        Err(e) => return Err(e),
    };
    let ghost target = gcd_spec(abs_int(a@ as int) as nat, abs_int(b@ as int) as nat);
    while y.value() != 0
        invariant
            x@ >= 0,
            y@ >= 0,
            gcd_spec(x@ as nat, y@ as nat) == target,
        decreases y@,
    {
        let temp = y;
        let rem = match x.checked_rem(y) {
            Ok(v) => v,
            Err(e) => return Err(e),
        };
        proof {
            if x@ == 0 {
                vstd::arithmetic::div_mod::lemma_small_mod(0, y@ as nat);
            }
        }
        assert(rem@ == (x@ as nat) % (y@ as nat));
        y = rem;
        x = temp;
    }
    Ok(x)
}

/// Scaling both arguments scales their greatest common divisor.
proof fn lemma_gcd_scale(k: nat, x: nat, y: nat)
    requires
        k > 0,
    ensures
        gcd_spec(k * x, k * y) == k * gcd_spec(x, y),
    decreases y,
{
    if y == 0 {
        assert(k * y == 0) by (nonlinear_arith)
            requires
                y == 0,
        ;
    } else {
        let q = (x / y) as int;
        let r = x % y;
        vstd::arithmetic::div_mod::lemma_fundamental_div_mod(x as int, y as int);
        assert((k * x) as int == q * (k * y) + k * r && 0 <= k * r < k * y) by (nonlinear_arith)
            requires
                x as int == y * q + r,
                0 <= r < y,
                k > 0,
        ;
        vstd::arithmetic::div_mod::lemma_fundamental_div_mod_converse((k * x) as int, (k * y) as int, q, (k * r) as int);
        lemma_gcd_scale(k, y, r);
        assert((k * x) % (k * y) == k * r);
        assert(k * y != 0);
    }
}

/// The least common multiple of two nonzero integers, as `lcm` computes it
/// when nothing overflows: `|(a / gcd(|a|, |b|)) * b|`.
pub open spec fn lcm_value(a: int, b: int) -> int {
    let g = gcd_spec(abs_int(a) as nat, abs_int(b) as nat);
    abs_int(trunc_div(a, g as int) * b)
}

/// For nonzero `a` and `b`, `lcm_value(a, b)` is a positive common
/// multiple of `|a|` and `|b|` that divides every common multiple of both:
/// their least common multiple.
pub proof fn lemma_lcm_is_least(a: int, b: int, m: nat)
    requires
        a != 0,
        b != 0,
    ensures
        lcm_value(a, b) > 0,
        lcm_value(a, b) % abs_int(a) == 0,
        lcm_value(a, b) % abs_int(b) == 0,
        m % (abs_int(a) as nat) == 0 && m % (abs_int(b) as nat) == 0 ==> m % (lcm_value(a, b) as nat) == 0,
{
    let aa = abs_int(a) as nat;
    let bb = abs_int(b) as nat;
    let g = gcd_spec(aa, bb);
    lemma_gcd_divides(aa, bb, 1);
    assert(g > 0);
    let a1 = (aa / g) as int;
    let b1 = (bb / g) as int;
    vstd::arithmetic::div_mod::lemma_fundamental_div_mod(aa as int, g as int);
    vstd::arithmetic::div_mod::lemma_fundamental_div_mod(bb as int, g as int);
    assert(aa as int == g * a1);
    assert(bb as int == g * b1);
    assert(trunc_div(a, g as int) == (if a > 0 { a1 } else { -a1 }));
    let l = a1 * bb;
    let td = trunc_div(a, g as int);
    let p = td * b;
    assert(p == a1 * bb || p == -(a1 * bb)) by (nonlinear_arith)
        requires
            p == td * b,
            td == a1 || td == -a1,
            b == bb || b == -bb,
    ;
    assert(a1 * bb >= 0) by (nonlinear_arith)
        requires
            a1 >= 0,
            bb >= 0,
    ;
    assert(lcm_value(a, b) == l);
    assert(a1 > 0) by (nonlinear_arith)
        requires
            aa as int == g * a1,
            aa > 0,
            g > 0,
    ;
    assert(l > 0) by (nonlinear_arith)
        requires
            l == a1 * bb,
            a1 > 0,
            bb > 0,
    ;
    vstd::arithmetic::div_mod::lemma_mod_multiples_basic(a1, bb as int);
    assert(l == b1 * aa) by (nonlinear_arith)
        requires
            l == a1 * bb,
            aa as int == g * a1,
            bb as int == g * b1,
    ;
    vstd::arithmetic::div_mod::lemma_mod_multiples_basic(b1, aa as int);
    if m % aa == 0 && m % bb == 0 && m > 0 {
        let x = (m / aa) as int;
        let y = (m / bb) as int;
        vstd::arithmetic::div_mod::lemma_fundamental_div_mod(m as int, aa as int);
        vstd::arithmetic::div_mod::lemma_fundamental_div_mod(m as int, bb as int);
        let ab = aa * bb;
        assert(ab > 0) by (nonlinear_arith)
            requires
                ab == aa * bb,
                aa > 0,
                bb > 0,
        ;
        // ab divides both m * aa and m * bb, hence their gcd, which is m * g
        assert((m * aa) as int == y * ab && (m * bb) as int == x * ab) by (nonlinear_arith)
            requires
                m as int == aa * x,
                m as int == bb * y,
                ab == aa * bb,
        ;
        vstd::arithmetic::div_mod::lemma_mod_multiples_basic(y, ab as int);
        vstd::arithmetic::div_mod::lemma_mod_multiples_basic(x, ab as int);
        lemma_gcd_divides(m * aa, m * bb, ab);
        lemma_gcd_scale(m, aa, bb);
        let t = ((m * g) / ab) as int;
        vstd::arithmetic::div_mod::lemma_fundamental_div_mod((m * g) as int, ab as int);
        assert((m * g) as int == ab * t);
        // cancel g: m == l * t
        assert(m as int == l * t) by (nonlinear_arith)
            requires
                (m * g) as int == ab * t,
                ab == aa * bb,
                aa as int == g * a1,
                l == a1 * bb,
                g > 0,
        ;
        assert(t >= 0) by (nonlinear_arith)
            requires
                m as int == l * t,
                l > 0,
                m > 0,
        ;
        vstd::arithmetic::div_mod::lemma_mod_multiples_basic(t, l);
        assert(m as int == t * l) by (nonlinear_arith)
            requires
                m as int == l * t,
        ;
    }
    if m == 0 {
        vstd::arithmetic::div_mod::lemma_small_mod(0, l as nat);
    }
}

/// The least common multiple: `0` when either argument is `0`, otherwise
/// `|(a / gcd(a, b)) * b|`, with errors when a step overflows.
pub fn lcm(a: SafeInteger, b: SafeInteger) -> (r: FoundationResult<SafeInteger>)
    ensures
        a@ == 0 || b@ == 0 ==> r == Ok::<SafeInteger, FoundationError>(SafeInteger(0)),
        a@ != 0 && b@ != 0 && a@ == i64::MIN ==> is_overflow(r, abs_overflow_msg(a@ as int)),
        a@ != 0 && b@ != 0 && a@ != i64::MIN && b@ == i64::MIN ==> is_overflow(r, abs_overflow_msg(b@ as int)),
        a@ != 0 && b@ != 0 && a@ != i64::MIN && b@ != i64::MIN ==> {
            let g = gcd_spec(abs_int(a@ as int) as nat, abs_int(b@ as int) as nat);
            let q = trunc_div(a@ as int, g as int);
            let p = q * b@;
            &&& (r is Ok <==> fits_i64(p) && p != i64::MIN)
            &&& r matches Ok(l) ==> l@ == abs_int(p) && l@ == lcm_value(a@ as int, b@ as int)
            &&& !fits_i64(p) ==> is_overflow(r, binop_overflow_msg(q, "*"@, b@ as int))
            &&& p == i64::MIN ==> is_overflow(r, abs_overflow_msg(p))
        },
{
    if a.value() == 0 || b.value() == 0 {
        return Ok(SafeInteger::zero());
    }
    let g = match gcd(a, b) {
        Ok(g) => g,
        Err(e) => return Err(e),
    };
    proof {
        lemma_gcd_divides(abs_int(a@ as int) as nat, abs_int(b@ as int) as nat, 1);
    }
    let div = match a.checked_div(g) {
        Ok(v) => v,
        Err(e) => return Err(e),
    };
    let prod = match div.checked_mul(b) {
        Ok(v) => v,
        Err(e) => return Err(e),
    };
    prod.checked_abs()
}

/// `value` clamped to `[min, max]`; an error when `min > max`.
pub fn clamp_integer(value: SafeInteger, min: SafeInteger, max: SafeInteger) -> (r: FoundationResult<SafeInteger>)
    ensures
        r is Ok <==> min@ <= max@,
        r is Err ==> is_validation_failed(r, "min must be <= max"@),
        r matches Ok(v) ==> v@ == (if value@ < min@ { min@ } else if value@ > max@ { max@ } else { value@ }),
{
    if min.value() > max.value() {
        return Err(FoundationError::ValidationFailed(to_owned_string("min must be <= max")));
    }
    if value.value() < min.value() {
        Ok(min)
    } else if value.value() > max.value() {
        Ok(max)
    } else {
        Ok(value)
    }
}

/// The sum of the values.
pub open spec fn sum_spec(s: Seq<SafeInteger>) -> int
    decreases s.len(),
{
    if s.len() == 0 { 0 } else { sum_spec(s.drop_last()) + s.last()@ }
}

/// The sum is additive: the sum of two sequences one after the other is
/// the sum of the first plus the sum of the second.
pub proof fn lemma_sum_append(a: Seq<SafeInteger>, b: Seq<SafeInteger>)
    ensures
        sum_spec(a + b) == sum_spec(a) + sum_spec(b),
        sum_spec(Seq::<SafeInteger>::empty()) == 0,
        forall|x: SafeInteger| sum_spec(seq![x]) == x@,
    decreases b.len(),
{
    assert(sum_spec(Seq::<SafeInteger>::empty()) == 0);
    assert forall|x: SafeInteger| sum_spec(seq![x]) == x@ by {
        assert(seq![x].drop_last() =~= Seq::<SafeInteger>::empty());
        assert(seq![x].last() == x);
        assert(sum_spec(seq![x].drop_last()) == 0);
    }
    if b.len() == 0 {
        assert(a + b =~= a);
    } else {
        lemma_sum_append(a, b.drop_last());
        assert((a + b).drop_last() =~= a + b.drop_last());
        assert((a + b).last() == b.last());
    }
}

/// The sum of the values, adding from the left; an overflow error at the
/// first partial sum that leaves the `i64` range.
pub fn sum_integers(values: &[SafeInteger]) -> (r: FoundationResult<SafeInteger>)
    ensures
        r is Ok <==> forall|k: int| 0 <= k <= values@.len() ==> fits_i64(#[trigger] sum_spec(values@.take(k))),
        r matches Ok(v) ==> v@ == sum_spec(values@),
        r is Err ==> exists|k: int| 0 <= k < values@.len()
            && !fits_i64(#[trigger] sum_spec(values@.take(k + 1)))
            && (forall|j: int| 0 <= j <= k ==> fits_i64(#[trigger] sum_spec(values@.take(j))))
            && is_overflow(r, binop_overflow_msg(sum_spec(values@.take(k)), "+"@, values@[k]@ as int)),
{
    let mut acc = SafeInteger::zero();
    let mut i: usize = 0;
    assert(values@.take(0) =~= Seq::<SafeInteger>::empty());
    while i < values.len()
        invariant
            i <= values@.len(),
            acc@ == sum_spec(values@.take(i as int)),
            forall|k: int| 0 <= k <= i ==> fits_i64(#[trigger] sum_spec(values@.take(k))),
        decreases values.len() - i,
    {
        let v = values[i];
        proof {
            assert(values@.take(i + 1).drop_last() =~= values@.take(i as int));
        }
        match acc.checked_add(v) {
            Ok(s) => {
                acc = s;
            },
            Err(e) => {
                assert(sum_spec(values@.take(i + 1)) == acc@ + v@);
                assert(!fits_i64(sum_spec(values@.take(i + 1))));
                return Err(e);
            },
        }
        proof {
            assert forall|k: int| 0 <= k <= i + 1 implies fits_i64(#[trigger] sum_spec(values@.take(k))) by {
                if k == i + 1 {
                }
            }
        }
        i = i + 1;
    }
    proof {
        assert(values@.take(i as int) =~= values@);
    }
    Ok(acc)
}

} // verus!
