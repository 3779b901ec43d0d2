//! What the arithmetic with 53 significant bits gives.
use vstd::arithmetic::power2::{lemma2_to64_rest, lemma_pow2_adds, lemma_pow2_pos, pow2};
use vstd::prelude::*;

use crate::binary64::{
    bit_length, lemma_bit_length, lemma_nearest_wf, nearest, signed_greater, Dyadic,
};
use crate::laws::lemma_less_in;

verus! {

/// `r` is the number with 53 significant bits that is nearest to `n` times two
/// to the power `exp`; of two that are, the even one.
pub open spec fn rounds(n: int, exp: int, r: Dyadic) -> bool {
    &&& n == 0 ==> r.mant == 0
    &&& n > 0 ==> 0x10_0000_0000_0000 <= r.mant < 0x20_0000_0000_0000
    &&& r.exp <= exp ==> r.mant == n * pow2((exp - r.exp) as nat)
    &&& r.exp > exp ==> {
        let p = pow2((r.exp - exp) as nat) as int;
        let off = r.mant * p - n;
        &&& -p <= 2 * off <= p
        &&& 2 * off == p || 2 * off == -p ==> r.mant % 2 == 0
        &&& r.mant == 0x10_0000_0000_0000 ==> 4 * off <= p
    }
}

/// A number in units of two to the power `e`.
pub open spec fn in_units(a: Dyadic, e: int) -> int {
    (a.mant * pow2((a.exp - e) as nat)) as int
}

/// A signed number in units of two to the power `e`.
pub open spec fn signed_units(a: (bool, Dyadic), e: int) -> int {
    if a.0 {
        -in_units(a.1, e)
    } else {
        in_units(a.1, e)
    }
}

/// Powers of two that rounding meets.
proof fn lemma_limits()
    ensures
        pow2(52) == 0x10_0000_0000_0000,
        pow2(53) == 0x20_0000_0000_0000,
        pow2(0) == 1,
{
    lemma2_to64_rest();
    vstd::arithmetic::power2::lemma2_to64();
}

/// A whole number of units is rounded.
pub proof fn law_rounding_is_to_nearest(n: nat, exp: int)
    ensures
        rounds(n as int, exp, nearest(n, exp)),
{
    let r = nearest(n, exp);
    lemma_limits();
    lemma_nearest_wf(n, exp);
    if n > 0 {
        let k = bit_length(n);
        lemma_bit_length(n);
        if k > 53 {
            let s = (k - 53) as nat;
            let p = pow2(s) as int;
            let q = n as int / p;
            let rest = n as int % p;
            lemma_pow2_pos(s);
            lemma_pow2_adds(s, 1);
            lemma_pow2_adds(s, 52);
            lemma_pow2_adds(s, 53);
            vstd::arithmetic::power2::lemma2_to64();
            vstd::arithmetic::div_mod::lemma_fundamental_div_mod(n as int, p);
            assert(p * q == q * p && (q + 1) * p == q * p + p) by (nonlinear_arith);
            assert(q >= 0x10_0000_0000_0000) by (nonlinear_arith)
                requires
                    p * 0x10_0000_0000_0000 <= n,
                    n == p * q + rest,
                    0 <= rest < p,
            ;
            assert(p % 2 == 0) by {
                lemma_pow2_adds(1, (s - 1) as nat);
                let h = pow2((s - 1) as nat) as int;
                assert(p == 2 * h);
            }
            let m = if 2 * rest > p || (2 * rest == p && q % 2 == 1) {
                q + 1
            } else {
                q
            };
            if m == 0x20_0000_0000_0000 {
                assert(r.exp - exp == s + 1);
                assert(pow2((s + 1) as nat) == 2 * p);
                assert(r.mant * (2 * p) == m * p) by (nonlinear_arith)
                    requires
                        2 * r.mant == m,
                ;
                assert(m == q + 1) by {
                    assert(q < 0x20_0000_0000_0000) by (nonlinear_arith)
                        requires
                            n < p * 0x20_0000_0000_0000,
                            n == p * q + rest,
                            0 <= rest < p,
                    ;
                }
            } else {
                assert(r.mant == m && r.exp - exp == s);
            }
        }
    } else {
        assert(0 * pow2((exp - r.exp) as nat) == 0) by (nonlinear_arith);
        if r.exp > exp {
            lemma_pow2_pos((r.exp - exp) as nat);
            assert(0 * (pow2((r.exp - exp) as nat) as int) == 0) by (nonlinear_arith);
        }
    }
}

/// A number that has 53 significant bits is its own rounding.
proof fn lemma_exact(r: Dyadic, exp: int)
    requires
        r.wf(),
        exp <= r.exp,
    ensures
        rounds(in_units(r, exp), exp, r),
{
    lemma_limits();
    let p = pow2((r.exp - exp) as nat) as int;
    lemma_pow2_pos((r.exp - exp) as nat);
    assert(r.mant > 0 ==> r.mant * p > 0) by (nonlinear_arith)
        requires
            p > 0,
    ;
    assert(r.mant == 0 ==> r.mant * p == 0) by (nonlinear_arith);
    if exp == r.exp {
        assert(r.mant * 1 == r.mant);
        assert((r.mant * 1) * 1 == r.mant);
    }
}

/// A whole number.
pub proof fn law_whole_numbers_are_rounded(n: nat)
    ensures
        rounds(n as int, 0, Dyadic::of(n)),
{
    law_rounding_is_to_nearest(n, 0);
}

/// A product.
pub proof fn law_products_are_rounded(a: Dyadic, b: Dyadic)
    ensures
        rounds((a.mant * b.mant) as int, a.exp + b.exp, a.times(b)),
{
    law_rounding_is_to_nearest(a.mant * b.mant, a.exp + b.exp);
}

/// A sum.
pub proof fn law_sums_are_rounded(a: Dyadic, b: Dyadic)
    requires
        a.wf(),
        b.wf(),
    ensures
        ({
            let e = if a.exp < b.exp {
                a.exp
            } else {
                b.exp
            };
            rounds(in_units(a, e) + in_units(b, e), e, a.plus(b))
        }),
{
    let e = if a.exp < b.exp {
        a.exp
    } else {
        b.exp
    };
    if a.mant == 0 {
        assert(in_units(a, e) == 0) by (nonlinear_arith)
            requires
                a.mant == 0,
        ;
        lemma_exact(b, e);
    } else if b.mant == 0 {
        assert(in_units(b, e) == 0) by (nonlinear_arith)
            requires
                b.mant == 0,
        ;
        lemma_exact(a, e);
    } else {
        law_rounding_is_to_nearest(a.units(e) + b.units(e), e);
    }
}

/// A difference: its sign, and its magnitude.
pub proof fn law_differences_are_rounded(a: Dyadic, b: Dyadic)
    ensures
        ({
            let e = if a.exp < b.exp {
                a.exp
            } else {
                b.exp
            };
            let d = in_units(a, e) - in_units(b, e);
            let (negative, r) = a.minus(b);
            &&& negative == (d < 0)
            &&& rounds(
                if d < 0 {
                    -d
                } else {
                    d
                },
                e,
                r,
            )
        }),
{
    let e = if a.exp < b.exp {
        a.exp
    } else {
        b.exp
    };
    if a.units(e) < b.units(e) {
        law_rounding_is_to_nearest((b.units(e) - a.units(e)) as nat, e);
    } else {
        law_rounding_is_to_nearest((a.units(e) - b.units(e)) as nat, e);
    }
}

/// Numbers are compared by their values, in any unit.
pub proof fn law_comparison_is_by_value(a: Dyadic, b: Dyadic, e: int)
    requires
        e <= a.exp,
        e <= b.exp,
    ensures
        a.less(b) <==> in_units(a, e) < in_units(b, e),
{
    lemma_less_in(a, b, e);
}

/// Signed numbers are compared by their values, in any unit.
pub proof fn law_signed_comparison_is_by_value(a: (bool, Dyadic), b: (bool, Dyadic), e: int)
    requires
        e <= a.1.exp,
        e <= b.1.exp,
    ensures
        signed_greater(a, b) <==> signed_units(a, e) > signed_units(b, e),
{
    lemma_less_in(a.1, b.1, e);
    lemma_less_in(b.1, a.1, e);
    lemma_sign(a.1, e);
    lemma_sign(b.1, e);
}

proof fn lemma_sign(a: Dyadic, e: int)
    requires
        e <= a.exp,
    ensures
        in_units(a, e) >= 0,
        in_units(a, e) > 0 <==> a.mant != 0,
{
    let p = pow2((a.exp - e) as nat);
    lemma_pow2_pos((a.exp - e) as nat);
    assert(a.mant * p >= 0 && (a.mant * p > 0 <==> a.mant != 0)) by (nonlinear_arith)
        requires
            p > 0,
    ;
}

/// A bit pattern holds 52 bits behind a leading one, and an exponent that is
/// 1075 too large.
pub proof fn law_bit_patterns(fraction: u64, exponent: u64)
    requires
        fraction < 0x10_0000_0000_0000,
        1 <= exponent < 0x800,
    ensures
        ({
            let r = Dyadic::of_bits((exponent * 0x10_0000_0000_0000 + fraction) as u64);
            r.mant == 0x10_0000_0000_0000 + fraction && r.exp == exponent - 1075
        }),
{
    let bits = exponent * 0x10_0000_0000_0000 + fraction;
    assert(bits % 0x10_0000_0000_0000 == fraction && bits / 0x10_0000_0000_0000 == exponent);
}

} // verus!
